//! Little-endian encoding of unsigned integers.

use vstd::prelude::*;

verus! {

pub open spec fn le16(v: u16) -> Seq<u8> {
    seq![(v % 256) as u8, (v / 256) as u8]
}

pub open spec fn le32(v: u32) -> Seq<u8> {
    seq![
        (v % 256) as u8,
        (v / 256 % 256) as u8,
        (v / 65536 % 256) as u8,
        (v / 16777216) as u8,
    ]
}

pub open spec fn le64(v: u64) -> Seq<u8> {
    le32((v % 0x1_0000_0000) as u32) + le32((v / 0x1_0000_0000) as u32)
}

/// The number whose two bytes stand at `pos`.
pub open spec fn u16_at(b: Seq<u8>, pos: int) -> u16 {
    (b[pos] + 256 * b[pos + 1]) as u16
}

/// What reading a two-byte field at `pos` gives: its number, or nothing where
/// fewer than two bytes are left.
pub open spec fn u16_read(b: Seq<u8>, pos: int) -> Option<u16> {
    if 0 <= pos && pos + 2 <= b.len() {
        Some(u16_at(b, pos))
    } else {
        None
    }
}

/// The number whose four bytes stand at `pos`.
pub open spec fn u32_at(b: Seq<u8>, pos: int) -> u32 {
    (b[pos] + 256 * b[pos + 1] + 65536 * b[pos + 2] + 16777216 * b[pos + 3]) as u32
}

/// The number whose eight bytes stand at `pos`.
pub open spec fn u64_at(b: Seq<u8>, pos: int) -> u64 {
    (u32_at(b, pos) + 0x1_0000_0000 * u32_at(b, pos + 4)) as u64
}

/// `s` stands in `b` at `pos`.
pub open spec fn stands_at(b: Seq<u8>, pos: int, s: Seq<u8>) -> bool {
    0 <= pos && pos + s.len() <= b.len() && b.subrange(pos, pos + s.len()) == s
}

pub proof fn lemma_stands_split(b: Seq<u8>, pos: int, s: Seq<u8>, t: Seq<u8>)
    ensures
        stands_at(b, pos, s + t) <==> stands_at(b, pos, s) && stands_at(b, pos + s.len(), t),
{
    if stands_at(b, pos, s + t) {
        let w = b.subrange(pos, pos + s.len() + t.len());
        assert(w == s + t);
        assert(b.subrange(pos, pos + s.len()) =~= s) by {
            assert forall|i: int| 0 <= i < s.len() implies b.subrange(pos, pos + s.len())[i] == s[i] by {
                assert(w[i] == (s + t)[i]);
            }
        }
        assert(b.subrange(pos + s.len(), pos + s.len() + t.len()) =~= t) by {
            assert forall|i: int| 0 <= i < t.len() implies b.subrange(
                pos + s.len(),
                pos + s.len() + t.len(),
            )[i] == t[i] by {
                assert(w[s.len() + i] == (s + t)[s.len() + i]);
            }
        }
    }
    if stands_at(b, pos, s) && stands_at(b, pos + s.len(), t) {
        assert(b.subrange(pos, pos + (s + t).len()) =~= s + t) by {
            assert forall|i: int| 0 <= i < (s + t).len() implies b.subrange(
                pos,
                pos + (s + t).len(),
            )[i] == (s + t)[i] by {
                if i < s.len() {
                    assert(b.subrange(pos, pos + s.len())[i] == s[i]);
                } else {
                    assert(b.subrange(pos + s.len(), pos + s.len() + t.len())[i - s.len()] == t[i
                        - s.len()]);
                }
            }
        }
    }
}

/// Two-byte numbers read back as they were written.
pub proof fn law_u16_round_trip(b: Seq<u8>, pos: int, v: u16)
    requires
        stands_at(b, pos, le16(v)),
    ensures
        u16_at(b, pos) == v,
{
    let w = b.subrange(pos, pos + 2);
    assert(w[0] == b[pos] && w[1] == b[pos + 1]);
}

/// A two-byte field that is written behind `a` takes exactly two bytes, the low
/// one first, and reads back, with `rest` behind it; where it is cut short,
/// nothing is read.
pub proof fn law_u16_field(a: Seq<u8>, v: u16, rest: Seq<u8>)
    ensures
        le16(v).len() == 2,
        le16(v)[0] + 256 * le16(v)[1] == v,
        u16_read(a + le16(v) + rest, a.len() as int) == Some(v),
        (a + le16(v) + rest).skip((a.len() + 2) as int) == rest,
        forall|k: int|
            0 <= k < 2 ==> u16_read(#[trigger] (a + le16(v)).take(a.len() + k), a.len() as int)
                is None,
{
    let b = a + le16(v) + rest;
    assert(b[a.len() as int] == le16(v)[0]);
    assert(b[(a.len() + 1) as int] == le16(v)[1]);
    assert(b.skip((a.len() + 2) as int) =~= rest);
}

/// Four-byte numbers read back as they were written.
pub proof fn law_u32_round_trip(b: Seq<u8>, pos: int, v: u32)
    requires
        stands_at(b, pos, le32(v)),
    ensures
        u32_at(b, pos) == v,
{
    let w = b.subrange(pos, pos + 4);
    assert(w[0] == b[pos] && w[1] == b[pos + 1] && w[2] == b[pos + 2] && w[3] == b[pos + 3]);
}

/// Eight-byte numbers read back as they were written.
pub proof fn law_u64_round_trip(b: Seq<u8>, pos: int, v: u64)
    requires
        stands_at(b, pos, le64(v)),
    ensures
        u64_at(b, pos) == v,
{
    let lo = (v % 0x1_0000_0000) as u32;
    let hi = (v / 0x1_0000_0000) as u32;
    lemma_stands_split(b, pos, le32(lo), le32(hi));
    law_u32_round_trip(b, pos, lo);
    law_u32_round_trip(b, pos + 4, hi);
}

pub fn push_u16(out: &mut Vec<u8>, v: u16)
    ensures
        final(out)@ == old(out)@ + le16(v),
{
    out.push((v % 256) as u8);
    out.push((v / 256) as u8);
    assert(out@ =~= old(out)@ + le16(v));
}

pub fn push_u32(out: &mut Vec<u8>, v: u32)
    ensures
        final(out)@ == old(out)@ + le32(v),
{
    out.push((v % 256) as u8);
    out.push((v / 256 % 256) as u8);
    out.push((v / 65536 % 256) as u8);
    out.push((v / 16777216) as u8);
    assert(out@ =~= old(out)@ + le32(v));
}

pub fn push_u64(out: &mut Vec<u8>, v: u64)
    ensures
        final(out)@ == old(out)@ + le64(v),
{
    push_u32(out, (v % 0x1_0000_0000) as u32);
    push_u32(out, (v / 0x1_0000_0000) as u32);
    assert(out@ =~= old(out)@ + le64(v));
}

pub fn push_bytes(out: &mut Vec<u8>, bytes: &Vec<u8>)
    ensures
        final(out)@ == old(out)@ + bytes@,
{
    let mut i: usize = 0;
    assert(out@ =~= old(out)@ + bytes@.take(0));
    while i < bytes.len()
        invariant
            i <= bytes@.len(),
            out@ == old(out)@ + bytes@.take(i as int),
        decreases bytes@.len() - i,
    {
        out.push(bytes[i]);
        assert(out@ =~= old(out)@ + bytes@.take(i + 1));
        i = i + 1;
    }
    assert(bytes@.take(i as int) =~= bytes@);
}

pub fn get_u16(b: &Vec<u8>, pos: usize) -> (r: u16)
    requires
        pos + 2 <= b@.len(),
    ensures
        r == u16_at(b@, pos as int),
{
    assert(b@.len() == b.len());
    b[pos] as u16 + 256 * b[pos + 1] as u16
}

/// Reads a two-byte field; nothing where fewer than two bytes are left.
pub fn read_u16(b: &Vec<u8>, pos: usize) -> (r: Option<u16>)
    ensures
        r == u16_read(b@, pos as int),
        r is Some <==> pos + 2 <= b@.len(),
{
    if b.len() < 2 || pos > b.len() - 2 {
        None
    } else {
        Some(get_u16(b, pos))
    }
}

pub fn get_u32(b: &Vec<u8>, pos: usize) -> (r: u32)
    requires
        pos + 4 <= b@.len(),
    ensures
        r == u32_at(b@, pos as int),
{
    assert(b@.len() == b.len());
    b[pos] as u32 + 256 * b[pos + 1] as u32 + 65536 * b[pos + 2] as u32 + 16777216 * b[pos
        + 3] as u32
}

pub fn get_u64(b: &Vec<u8>, pos: usize) -> (r: u64)
    requires
        pos + 8 <= b@.len(),
    ensures
        r == u64_at(b@, pos as int),
{
    assert(b@.len() == b.len());
    get_u32(b, pos) as u64 + 0x1_0000_0000 * get_u32(b, pos + 4) as u64
}

// ── Runs of four-byte words ─────────────────────────────────────────────────

/// The encodings of `words`, one after the other.
pub open spec fn le_words(words: Seq<u32>) -> Seq<u8>
    decreases words.len(),
{
    if words.len() == 0 {
        Seq::empty()
    } else {
        le_words(words.drop_last()) + le32(words.last())
    }
}

/// The `n` words that stand at `pos`.
pub open spec fn words_at(b: Seq<u8>, pos: int, n: nat) -> Seq<u32> {
    Seq::new(n, |i: int| u32_at(b, pos + 4 * i))
}

pub proof fn lemma_le_words_len(words: Seq<u32>)
    ensures
        le_words(words).len() == 4 * words.len(),
    decreases words.len(),
{
    if words.len() > 0 {
        lemma_le_words_len(words.drop_last());
    }
}

/// A run of words reads back as it was written.
pub proof fn law_words_round_trip(b: Seq<u8>, pos: int, words: Seq<u32>)
    requires
        stands_at(b, pos, le_words(words)),
    ensures
        words_at(b, pos, words.len()) == words,
    decreases words.len(),
{
    if words.len() == 0 {
        assert(words_at(b, pos, 0) =~= words);
    } else {
        let d = words.drop_last();
        lemma_le_words_len(d);
        lemma_stands_split(b, pos, le_words(d), le32(words.last()));
        law_words_round_trip(b, pos, d);
        law_u32_round_trip(b, pos + 4 * d.len(), words.last());
        assert(words_at(b, pos, words.len()) =~= words) by {
            assert forall|i: int| 0 <= i < words.len() implies words_at(b, pos, words.len())[i]
                == words[i] by {
                if i < d.len() {
                    assert(words_at(b, pos, d.len())[i] == d[i]);
                }
            }
        }
    }
}

pub fn push_words(out: &mut Vec<u8>, words: &Vec<u32>)
    ensures
        final(out)@ == old(out)@ + le_words(words@),
{
    let mut i: usize = 0;
    assert(words@.take(0) =~= Seq::empty());
    assert(out@ =~= old(out)@ + le_words(words@.take(0)));
    while i < words.len()
        invariant
            i <= words@.len(),
            out@ == old(out)@ + le_words(words@.take(i as int)),
        decreases words@.len() - i,
    {
        push_u32(out, words[i]);
        proof {
            assert(words@.take(i + 1).drop_last() =~= words@.take(i as int));
            assert(words@.take(i + 1).last() == words@[i as int]);
            assert(out@ =~= old(out)@ + le_words(words@.take(i + 1)));
        }
        i = i + 1;
    }
    assert(words@.take(i as int) =~= words@);
}

pub fn get_words(b: &Vec<u8>, pos: usize, n: usize) -> (r: Vec<u32>)
    requires
        pos + 4 * n <= b@.len(),
    ensures
        r@ == words_at(b@, pos as int, n as nat),
{
    let mut out: Vec<u32> = Vec::new();
    let mut i: usize = 0;
    while i < n
        invariant
            i <= n,
            pos + 4 * n <= b@.len(),
            out@ == words_at(b@, pos as int, i as nat),
        decreases n - i,
    {
        assert(b@.len() == b.len());
        out.push(get_u32(b, pos + 4 * i));
        assert(out@ =~= words_at(b@, pos as int, (i + 1) as nat));
        i = i + 1;
    }
    out
}

/// Numbers are stored with their least byte first: the bytes of a stored number
/// weigh 1, 256, 65536 and so on.
pub proof fn law_least_byte_first(v: u32, w: u64)
    ensures
        le32(v).len() == 4,
        le32(v)[0] + 256 * le32(v)[1] + 65536 * le32(v)[2] + 16777216 * le32(v)[3] == v,
        le64(w).len() == 8,
        le64(w)[0] + 256 * le64(w)[1] + 65536 * le64(w)[2] + 16777216 * le64(w)[3] + 0x1_0000_0000
            * (le64(w)[4] + 256 * le64(w)[5] + 65536 * le64(w)[6] + 16777216 * le64(w)[7]) == w,
{
    lemma_weighed(v);
    lemma_weighed((w % 0x1_0000_0000) as u32);
    lemma_weighed((w / 0x1_0000_0000) as u32);
}

proof fn lemma_weighed(v: u32)
    ensures
        le32(v)[0] + 256 * le32(v)[1] + 65536 * le32(v)[2] + 16777216 * le32(v)[3] == v,
{
}

/// Reading weighs the bytes in the same way.
pub proof fn law_bytes_are_weighed(b: Seq<u8>, pos: int)
    ensures
        u16_at(b, pos) == b[pos] + 256 * b[pos + 1],
        u32_at(b, pos) == b[pos] + 256 * b[pos + 1] + 65536 * b[pos + 2] + 16777216 * b[pos + 3],
        u64_at(b, pos) == b[pos] + 256 * b[pos + 1] + 65536 * b[pos + 2] + 16777216 * b[pos + 3]
            + 0x1_0000_0000 * (b[pos + 4] + 256 * b[pos + 5] + 65536 * b[pos + 6] + 16777216 * b[pos
            + 7]),
{
}

/// The words of a list follow one another, four bytes each.
pub proof fn law_words_follow_one_another(words: Seq<u32>, i: int)
    requires
        0 <= i < words.len(),
    ensures
        le_words(words).len() == 4 * words.len(),
        le_words(words).subrange(4 * i, 4 * i + 4) == le32(words[i]),
    decreases words.len(),
{
    lemma_le_words_len(words);
    lemma_le_words_len(words.drop_last());
    let rest = le_words(words.drop_last());
    if i < words.len() - 1 {
        law_words_follow_one_another(words.drop_last(), i);
        assert(le_words(words).subrange(4 * i, 4 * i + 4) =~= rest.subrange(4 * i, 4 * i + 4));
    } else {
        assert(le_words(words).subrange(4 * i, 4 * i + 4) =~= le32(words[i]));
    }
}

} // verus!
