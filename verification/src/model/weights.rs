//! `.wbmodel` binary format: encoding and decoding.
//!
//! ## File layout (all multi-byte fields little-endian)
//!
//! ```text
//! [Header]
//!   magic:              4 bytes  = "WBML"
//!   version:            u8       = 1
//!   n_features_in:      u8
//!   n_encoder_layers:   u8
//!   n_decoder_layers:   u8
//!   n_classes:          u8
//!   use_batch_norm:     u8   (0/1)
//!   use_input_tnet:     u8   (0/1)
//!   use_feature_tnet:   u8   (0/1)
//!   reserved:           u8   = 0x00
//!   encoder_dims:       u16 x n_encoder_layers
//!   decoder_dims:       u16 x n_decoder_layers
//!   label_map:          u8  x n_classes
//!
//! [T-Net blocks, only when flag = 1]
//!   input transform (k=3), feature transform (k=64): six layer blocks each;
//!   the last one never has normalisation.
//!
//! [Encoder blocks]
//! [Decoder blocks, then the class projection]
//!
//! A layer block is:
//!   weight:  f32[dim_out x dim_in]
//!   bias:    f32[dim_out]
//!   [if normalised:] gamma, beta, mean, var: f32[dim_out] each
//! ```

use vstd::prelude::*;

use crate::codec::{
    get_words, le16, le_words, push_bytes, push_u16, push_words, read_u16, stands_at, u16_at,
    words_at,
};
use crate::error::ClassifierError;
use crate::model::pointnet::{
    concat_width, layer_views, BatchNorm1d, Layer, LayerView, Linear, NormView, PointNetClassifier,
    PointNetConfig, TNet,
};
use crate::text::{concat2, concat3, concat5, decimal, decimal_text};

verus! {

// ── Layer blocks ────────────────────────────────────────────────────────────

/// The shape of a layer block in a file.
#[derive(Debug, Clone, Copy, PartialEq, Eq, Structural)]
pub struct Slot {
    pub dim_in: usize,
    pub dim_out: usize,
    pub bn: bool,
}

/// The number of bytes of a layer block.
pub open spec fn slot_len(s: Slot) -> int {
    4 * (s.dim_out * s.dim_in + s.dim_out + if s.bn {
        4 * s.dim_out
    } else {
        0
    })
}

/// The bytes of a layer; the normalisation parameters only where `norm` is
/// set.
pub open spec fn layer_bytes(l: LayerView, norm: bool) -> Seq<u8> {
    let head = le_words(l.weight) + le_words(l.bias);
    match l.bn {
        Some(n) => if norm {
            head + le_words(n.gamma) + le_words(n.beta) + le_words(n.mean) + le_words(n.var)
        } else {
            head
        },
        None => head,
    }
}

/// The layer whose block stands at `pos`.
pub open spec fn layer_at(b: Seq<u8>, pos: int, s: Slot) -> LayerView {
    let bias = pos + 4 * (s.dim_out * s.dim_in);
    let norm = bias + 4 * s.dim_out;
    LayerView {
        dim_in: s.dim_in as int,
        dim_out: s.dim_out as int,
        weight: words_at(b, pos, (s.dim_out * s.dim_in) as nat),
        bias: words_at(b, bias, s.dim_out as nat),
        bn: if s.bn {
            Some(
                NormView {
                    gamma: words_at(b, norm, s.dim_out as nat),
                    beta: words_at(b, norm + 4 * s.dim_out, s.dim_out as nat),
                    mean: words_at(b, norm + 8 * s.dim_out, s.dim_out as nat),
                    var: words_at(b, norm + 12 * s.dim_out, s.dim_out as nat),
                },
            )
        } else {
            None
        },
    }
}

/// The number of bytes of the first `k` blocks.
pub open spec fn slots_end(slots: Seq<Slot>, k: int) -> int
    decreases k,
{
    if k <= 0 {
        0
    } else {
        slots_end(slots, k - 1) + slot_len(slots[k - 1])
    }
}

/// The layers whose blocks stand at `pos`.
pub open spec fn layers_at(b: Seq<u8>, pos: int, slots: Seq<Slot>) -> Seq<LayerView> {
    Seq::new(slots.len(), |i: int| layer_at(b, pos + slots_end(slots, i), slots[i]))
}

/// All blocks are there.
pub open spec fn slots_fit(b: Seq<u8>, pos: int, slots: Seq<Slot>) -> bool {
    pos + slots_end(slots, slots.len() as int) <= b.len()
}

/// The file ends inside the `k`-th block.
pub open spec fn ends_in(b: Seq<u8>, pos: int, slots: Seq<Slot>, k: int) -> bool {
    &&& 0 <= k < slots.len()
    &&& pos + slots_end(slots, k) <= b.len()
    &&& b.len() < pos + slots_end(slots, k + 1)
}

/// The layer has the shape of the slot.
pub open spec fn matches_slot(l: LayerView, s: Slot) -> bool {
    &&& l.dim_in == s.dim_in
    &&& l.dim_out == s.dim_out
    &&& l.weight.len() == s.dim_out * s.dim_in
    &&& l.bias.len() == s.dim_out
    &&& l.bn is Some <==> s.bn
    &&& l.bn matches Some(n) ==> n.gamma.len() == s.dim_out && n.beta.len() == s.dim_out
        && n.mean.len() == s.dim_out && n.var.len() == s.dim_out
}

proof fn lemma_slots_end_monotone(slots: Seq<Slot>, j: int, k: int)
    requires
        0 <= j <= k <= slots.len(),
    ensures
        0 <= slots_end(slots, j) <= slots_end(slots, k),
    decreases k,
{
    if k > 0 {
        let s = slots[k - 1];
        assert(slot_len(s) >= 0) by {
            assert(s.dim_out * s.dim_in >= 0) by (nonlinear_arith)
                requires
                    s.dim_in >= 0,
                    s.dim_out >= 0,
            ;
        }
        if j < k {
            lemma_slots_end_monotone(slots, j, k - 1);
        } else {
            lemma_slots_end_monotone(slots, k - 1, k - 1);
        }
    }
}

/// Where the file ends inside a block, not all blocks are there.
proof fn lemma_ends_in_short(b: Seq<u8>, pos: int, slots: Seq<Slot>, k: int)
    requires
        ends_in(b, pos, slots, k),
    ensures
        !slots_fit(b, pos, slots),
{
    lemma_slots_end_monotone(slots, k + 1, slots.len() as int);
}

/// Reads one layer block; nothing where the bytes end inside it.
fn read_layer_block(b: &Vec<u8>, pos: usize, s: Slot) -> (r: Option<(Layer, usize)>)
    requires
        pos <= b@.len(),
        s.dim_in <= 0x2_0000,
        s.dim_out <= 0x1_0000,
    ensures
        match r {
            Some((l, next)) => {
                &&& next == pos + slot_len(s)
                &&& next <= b@.len()
                &&& l@ == layer_at(b@, pos as int, s)
            },
            None => b@.len() < pos + slot_len(s),
        },
{
    let dim_in: usize = s.dim_in;
    let dim_out: usize = s.dim_out;
    let bn: bool = s.bn;
    assert(b@.len() == b.len());
    assert(0 <= dim_out * dim_in <= 0x2_0000 * 0x1_0000) by (nonlinear_arith)
        requires
            0 <= dim_in <= 0x2_0000,
            0 <= dim_out <= 0x1_0000,
    ;
    let n_weight: u64 = dim_out as u64 * dim_in as u64;
    let n_norm: u64 = if bn {
        4 * dim_out as u64
    } else {
        0
    };
    let n_bytes: u64 = 4 * (n_weight + dim_out as u64 + n_norm);
    assert(n_bytes == slot_len(s));
    if n_bytes > (b.len() - pos) as u64 {
        return None;
    }
    let weight = get_words(b, pos, n_weight as usize);
    let at_bias: usize = pos + 4 * n_weight as usize;
    let bias = get_words(b, at_bias, dim_out);
    let at_norm: usize = at_bias + 4 * dim_out;
    let linear = Linear { dim_in, dim_out, weight, bias };
    if bn {
        let gamma = get_words(b, at_norm, dim_out);
        let beta = get_words(b, at_norm + 4 * dim_out, dim_out);
        let mean = get_words(b, at_norm + 8 * dim_out, dim_out);
        let var = get_words(b, at_norm + 12 * dim_out, dim_out);
        Some((Layer { linear, bn: Some(BatchNorm1d { gamma, beta, mean, var }) }, at_norm + 16 * dim_out))
    } else {
        Some((Layer { linear, bn: None }, at_norm))
    }
}

/// Reads a run of layer blocks; where the bytes end inside one, its place.
fn read_blocks(b: &Vec<u8>, pos: usize, slots: &Vec<Slot>) -> (r: Result<(Vec<Layer>, usize), usize>)
    requires
        pos <= b@.len(),
        forall|i: int|
            0 <= i < slots@.len() ==> (#[trigger] slots@[i]).dim_in <= 0x2_0000
                && slots@[i].dim_out <= 0x1_0000,
    ensures
        match r {
            Ok((layers, next)) => {
                &&& slots_fit(b@, pos as int, slots@)
                &&& next == pos + slots_end(slots@, slots@.len() as int)
                &&& layer_views(layers@) == layers_at(b@, pos as int, slots@)
                &&& layers@.len() == slots@.len()
            },
            Err(k) => ends_in(b@, pos as int, slots@, k as int),
        },
{
    let mut layers: Vec<Layer> = Vec::new();
    let mut at: usize = pos;
    let mut i: usize = 0;
    while i < slots.len()
        invariant
            i <= slots@.len(),
            forall|k: int|
                0 <= k < slots@.len() ==> (#[trigger] slots@[k]).dim_in <= 0x2_0000
                    && slots@[k].dim_out <= 0x1_0000,
            at == pos + slots_end(slots@, i as int),
            at <= b@.len(),
            layers@.len() == i,
            forall|k: int|
                0 <= k < i ==> (#[trigger] layers@[k])@ == layer_at(
                    b@,
                    pos + slots_end(slots@, k),
                    slots@[k],
                ),
        decreases slots@.len() - i,
    {
        assert(slots@[i as int].dim_in <= 0x2_0000);
        match read_layer_block(b, at, slots[i]) {
            None => {
                return Err(i);
            },
            Some((layer, next)) => {
                layers.push(layer);
                at = next;
            },
        }
        i = i + 1;
    }
    assert(layer_views(layers@) =~= layers_at(b@, pos as int, slots@));
    Ok((layers, at))
}

// ── The header ──────────────────────────────────────────────────────────────

/// Everything that the header holds.
#[verifier::ext_equal]
pub ghost struct HeaderView {
    pub n_features_in: int,
    pub encoder_dims: Seq<usize>,
    pub decoder_dims: Seq<usize>,
    pub n_classes: int,
    pub use_batch_norm: bool,
    pub use_input_tnet: bool,
    pub use_feature_tnet: bool,
    pub label_map: Seq<u8>,
}

/// The first four bytes of every file: `WBML`.
pub open spec fn magic() -> Seq<u8> {
    seq![87u8, 66u8, 77u8, 76u8]
}

/// The `n` two-byte dimensions that stand at `pos`.
pub open spec fn dims_at(b: Seq<u8>, pos: int, n: nat) -> Seq<usize> {
    Seq::new(n, |i: int| u16_at(b, pos + 2 * i) as usize)
}

/// The header of a file that starts with `b`.
pub open spec fn header_at(b: Seq<u8>) -> HeaderView {
    let enc = b[6] as int;
    let dec = b[7] as int;
    HeaderView {
        n_features_in: b[5] as int,
        encoder_dims: dims_at(b, 13, enc as nat),
        decoder_dims: dims_at(b, 13 + 2 * enc, dec as nat),
        n_classes: b[8] as int,
        use_batch_norm: b[9] != 0,
        use_input_tnet: b[10] != 0,
        use_feature_tnet: b[11] != 0,
        label_map: b.subrange(13 + 2 * enc + 2 * dec, 13 + 2 * enc + 2 * dec + b[8]),
    }
}

/// Where the header ends.
pub open spec fn header_end(b: Seq<u8>) -> int {
    13 + 2 * b[6] + 2 * b[7] + b[8]
}

/// The file starts with the magic and version of this format.
pub open spec fn has_signature(b: Seq<u8>) -> bool {
    b.len() >= 5 && b.take(4) == magic() && b[4] == 1
}

/// The header is whole.
pub open spec fn header_whole(b: Seq<u8>) -> bool {
    b.len() >= 13 && header_end(b) <= b.len()
}

/// The blocks of a transform net with `k` inputs.
pub open spec fn tnet_slots(k: usize, bn: bool) -> Seq<Slot> {
    seq![
        Slot { dim_in: k, dim_out: 64, bn },
        Slot { dim_in: 64, dim_out: 128, bn },
        Slot { dim_in: 128, dim_out: 1024, bn },
        Slot { dim_in: 1024, dim_out: 512, bn },
        Slot { dim_in: 512, dim_out: 256, bn },
        Slot { dim_in: 256, dim_out: (k * k) as usize, bn: false },
    ]
}

/// The blocks of layers with the given widths, the first of which takes
/// `dim_in` inputs.
pub open spec fn chain_slots(dim_in: usize, dims: Seq<usize>, bn: bool) -> Seq<Slot> {
    Seq::new(
        dims.len(),
        |i: int|
            Slot {
                dim_in: if i == 0 {
                    dim_in
                } else {
                    dims[i - 1]
                },
                dim_out: dims[i],
                bn,
            },
    )
}

/// The width that layers of the given widths hand on.
pub open spec fn chain_out(dim_in: usize, dims: Seq<usize>) -> usize {
    if dims.len() == 0 {
        dim_in
    } else {
        dims.last()
    }
}

pub open spec fn input_slots(h: HeaderView) -> Seq<Slot> {
    if h.use_input_tnet {
        tnet_slots(3, h.use_batch_norm)
    } else {
        Seq::empty()
    }
}

pub open spec fn feature_slots(h: HeaderView) -> Seq<Slot> {
    if h.use_feature_tnet {
        tnet_slots(64, h.use_batch_norm)
    } else {
        Seq::empty()
    }
}

pub open spec fn encoder_slots(h: HeaderView) -> Seq<Slot> {
    chain_slots(h.n_features_in as usize, h.encoder_dims, h.use_batch_norm)
}

pub open spec fn decoder_slots(h: HeaderView) -> Seq<Slot> {
    chain_slots(concat_width(h.encoder_dims) as usize, h.decoder_dims, h.use_batch_norm)
}

pub open spec fn projection_slot(h: HeaderView) -> Slot {
    Slot {
        dim_in: chain_out(concat_width(h.encoder_dims) as usize, h.decoder_dims),
        dim_out: h.n_classes as usize,
        bn: false,
    }
}

/// All blocks of a file, in file order.
pub open spec fn model_slots(h: HeaderView) -> Seq<Slot> {
    input_slots(h) + feature_slots(h) + encoder_slots(h) + decoder_slots(h) + seq![
        projection_slot(h),
    ]
}

pub open spec fn tnet_label(k: int) -> Seq<char> {
    if k < 3 {
        "tnet enc["@ + decimal(k as nat) + "] read: "@
    } else {
        "tnet fc["@ + decimal((k - 3) as nat) + "] read: "@
    }
}

/// How a message names the `k`-th block of a file.
pub open spec fn block_label(h: HeaderView, k: int) -> Seq<char> {
    let a = input_slots(h).len();
    let b = a + feature_slots(h).len();
    let c = b + h.encoder_dims.len();
    let d = c + h.decoder_dims.len();
    if k < a {
        tnet_label(k)
    } else if k < b {
        tnet_label(k - a)
    } else if k < c {
        "encoder["@ + decimal((k - b) as nat) + "] read: "@
    } else if k < d {
        "decoder["@ + decimal((k - c) as nat) + "] read: "@
    } else {
        "class_proj read: "@
    }
}

// ── Whole models ────────────────────────────────────────────────────────────

/// The layers of an optional transform net.
pub open spec fn tnet_layers(t: Option<TNet>) -> Seq<LayerView> {
    match t {
        Some(t) => layer_views(t.layers@),
        None => Seq::empty(),
    }
}

impl PointNetClassifier {
    pub open spec fn header(self) -> HeaderView {
        HeaderView {
            n_features_in: self.config.n_features_in as int,
            encoder_dims: self.config.encoder_dims@,
            decoder_dims: self.config.decoder_dims@,
            n_classes: self.config.n_classes as int,
            use_batch_norm: self.config.use_batch_norm,
            use_input_tnet: self.config.use_input_tnet,
            use_feature_tnet: self.config.use_feature_tnet,
            label_map: self.label_map@,
        }
    }

    /// All layers, in file order.
    pub open spec fn layers(self) -> Seq<LayerView> {
        tnet_layers(self.input_tnet) + tnet_layers(self.feature_tnet) + layer_views(
            self.encoder_layers@,
        ) + layer_views(self.decoder_layers@) + seq![self.class_proj@]
    }

    /// The transform nets are there exactly where the configuration says so,
    /// with the sizes that it gives them.
    pub open spec fn parts_ok(self) -> bool {
        &&& self.input_tnet is Some <==> self.config.use_input_tnet
        &&& self.input_tnet matches Some(t) ==> t.k == 3 && t.layers@.len() == 6
        &&& self.feature_tnet is Some <==> self.config.use_feature_tnet
        &&& self.feature_tnet matches Some(t) ==> t.k == 64 && t.layers@.len() == 6
        &&& self.encoder_layers@.len() == self.config.encoder_dims@.len()
        &&& self.decoder_layers@.len() == self.config.decoder_dims@.len()
    }
}

/// The message of a read that hits the end of the file.
pub open spec fn eof_text() -> Seq<char> {
    "I/O error: failed to fill whole buffer"@
}

pub open spec fn bad_magic_text(b: Seq<u8>) -> Seq<char> {
    "wbmodel: bad magic ["@ + decimal(b[0] as nat) + ", "@ + decimal(b[1] as nat) + ", "@ + decimal(
        b[2] as nat,
    ) + ", "@ + decimal(b[3] as nat) + "] (expected [87, 66, 77, 76])"@
}

/// What decoding `b` fails with, if it does.
pub open spec fn fails_with(b: Seq<u8>, e: ClassifierError) -> bool {
    if b.len() < 4 {
        e is UnexpectedEof
    } else if b.take(4) != magic() {
        e matches ClassifierError::Pipeline(m) && m@ == bad_magic_text(b)
    } else if b.len() < 5 {
        e is UnexpectedEof
    } else if b[4] != 1 {
        e matches ClassifierError::Pipeline(m) && m@ == "wbmodel: unsupported version "@ + decimal(
            b[4] as nat,
        ) + " (expected 1)"@
    } else if !header_whole(b) {
        e is UnexpectedEof
    } else {
        e matches ClassifierError::Pipeline(m) && exists|k: int| #[trigger]
            ends_in(b, header_end(b), model_slots(header_at(b)), k) && m@ == block_label(
                header_at(b),
                k,
            ) + eof_text()
    }
}

/// `b` holds a whole model.
pub open spec fn holds_model(b: Seq<u8>) -> bool {
    has_signature(b) && header_whole(b) && slots_fit(b, header_end(b), model_slots(header_at(b)))
}

/// The `n` two-byte dimensions that stand at `pos`; nothing where they are cut
/// short.
fn read_dims(b: &Vec<u8>, pos: usize, n: usize) -> (r: Option<Vec<usize>>)
    requires
        pos + 2 * n <= usize::MAX,
    ensures
        r is Some <==> n == 0 || pos + 2 * n <= b@.len(),
        r matches Some(dims) ==> dims@ == dims_at(b@, pos as int, n as nat) && forall|i: int|
            0 <= i < dims@.len() ==> (#[trigger] dims@[i]) <= 0xFFFF,
{
    let mut out: Vec<usize> = Vec::new();
    let mut i: usize = 0;
    while i < n
        invariant
            i <= n,
            pos + 2 * n <= usize::MAX,
            i == 0 || pos + 2 * i <= b@.len(),
            out@ == dims_at(b@, pos as int, i as nat),
            forall|k: int| 0 <= k < out@.len() ==> (#[trigger] out@[k]) <= 0xFFFF,
        decreases n - i,
    {
        match read_u16(b, pos + 2 * i) {
            Some(d) => {
                out.push(d as usize);
            },
            None => {
                return None;
            },
        }
        assert(out@ =~= dims_at(b@, pos as int, (i + 1) as nat));
        i = i + 1;
    }
    Some(out)
}

fn push_tnet_slots(out: &mut Vec<Slot>, k: usize, bn: bool)
    requires
        k <= 64,
    ensures
        final(out)@ == old(out)@ + tnet_slots(k, bn),
{
    assert(k * k <= 64 * 64) by (nonlinear_arith)
        requires
            0 <= k <= 64,
    ;
    out.push(Slot { dim_in: k, dim_out: 64, bn });
    out.push(Slot { dim_in: 64, dim_out: 128, bn });
    out.push(Slot { dim_in: 128, dim_out: 1024, bn });
    out.push(Slot { dim_in: 1024, dim_out: 512, bn });
    out.push(Slot { dim_in: 512, dim_out: 256, bn });
    out.push(Slot { dim_in: 256, dim_out: k * k, bn: false });
    assert(out@ =~= old(out)@ + tnet_slots(k, bn));
}

fn push_chain_slots(out: &mut Vec<Slot>, dim_in: usize, dims: &Vec<usize>, bn: bool) -> (r: usize)
    ensures
        final(out)@ == old(out)@ + chain_slots(dim_in, dims@, bn),
        r == chain_out(dim_in, dims@),
{
    let mut prev: usize = dim_in;
    let mut i: usize = 0;
    assert(out@ =~= old(out)@ + chain_slots(dim_in, dims@, bn).take(0));
    while i < dims.len()
        invariant
            i <= dims@.len(),
            prev == (if i == 0 {
                dim_in
            } else {
                dims@[i - 1]
            }),
            out@ == old(out)@ + chain_slots(dim_in, dims@, bn).take(i as int),
        decreases dims@.len() - i,
    {
        out.push(Slot { dim_in: prev, dim_out: dims[i], bn });
        assert(out@ =~= old(out)@ + chain_slots(dim_in, dims@, bn).take(i + 1));
        prev = dims[i];
        i = i + 1;
    }
    assert(chain_slots(dim_in, dims@, bn).take(i as int) =~= chain_slots(dim_in, dims@, bn));
    prev
}

/// The blocks of a model with this configuration, in file order.
fn block_slots(config: &PointNetConfig) -> (r: Vec<Slot>)
    requires
        config.n_features_in <= 255,
        config.n_classes <= 255,
        forall|i: int|
            0 <= i < config.encoder_dims@.len() ==> (#[trigger] config.encoder_dims@[i]) <= 0xFFFF,
        forall|i: int|
            0 <= i < config.decoder_dims@.len() ==> (#[trigger] config.decoder_dims@[i]) <= 0xFFFF,
    ensures
        forall|h: HeaderView|
            h.n_features_in == config.n_features_in && h.encoder_dims == config.encoder_dims@
                && h.decoder_dims == config.decoder_dims@ && h.n_classes == config.n_classes
                && h.use_batch_norm == config.use_batch_norm && h.use_input_tnet
                == config.use_input_tnet && h.use_feature_tnet == config.use_feature_tnet
                ==> r@ == #[trigger] model_slots(h),
        forall|i: int|
            0 <= i < r@.len() ==> (#[trigger] r@[i]).dim_in <= 0x2_0000 && r@[i].dim_out
                <= 0x1_0000,
{
    let mut out: Vec<Slot> = Vec::new();
    if config.use_input_tnet {
        push_tnet_slots(&mut out, 3, config.use_batch_norm);
    }
    if config.use_feature_tnet {
        push_tnet_slots(&mut out, 64, config.use_batch_norm);
    }
    let ghost enc = config.encoder_dims@;
    proof {
        if enc.len() > 0 {
            assert(enc[0] <= 0xFFFF && enc[enc.len() - 1] <= 0xFFFF);
        }
    }
    push_chain_slots(&mut out, config.n_features_in, &config.encoder_dims, config.use_batch_norm);
    let last: usize = push_chain_slots(
        &mut out,
        config.concat_dim(),
        &config.decoder_dims,
        config.use_batch_norm,
    );
    out.push(Slot { dim_in: last, dim_out: config.n_classes, bn: false });
    proof {
        assert forall|h: HeaderView|
            h.n_features_in == config.n_features_in && h.encoder_dims == config.encoder_dims@
                && h.decoder_dims == config.decoder_dims@ && h.n_classes == config.n_classes
                && h.use_batch_norm == config.use_batch_norm && h.use_input_tnet
                == config.use_input_tnet && h.use_feature_tnet
                == config.use_feature_tnet implies out@ == #[trigger] model_slots(h) by {
            assert(out@ =~= model_slots(h));
        }
        let bn = config.use_batch_norm;
        let e = chain_slots(config.n_features_in, enc, bn);
        let d = chain_slots(concat_width(enc) as usize, config.decoder_dims@, bn);
        assert forall|i: int| 0 <= i < e.len() implies (#[trigger] e[i]).dim_in <= 0x2_0000
            && e[i].dim_out <= 0x1_0000 by {
            assert(enc[i] <= 0xFFFF);
            if i > 0 {
                assert(enc[i - 1] <= 0xFFFF);
            }
        }
        assert forall|i: int| 0 <= i < d.len() implies (#[trigger] d[i]).dim_in <= 0x2_0000
            && d[i].dim_out <= 0x1_0000 by {
            assert(config.decoder_dims@[i] <= 0xFFFF);
            if i > 0 {
                assert(config.decoder_dims@[i - 1] <= 0xFFFF);
            }
        }
        if config.decoder_dims@.len() > 0 {
            assert(config.decoder_dims@[config.decoder_dims@.len() - 1] <= 0xFFFF);
        }
    }
    out
}

fn tnet_label_text(k: usize) -> (r: String)
    ensures
        r@ == tnet_label(k as int),
{
    if k < 3 {
        let number = decimal_text(k as u64);
        concat3("tnet enc[", number.as_str(), "] read: ")
    } else {
        let number = decimal_text((k - 3) as u64);
        concat3("tnet fc[", number.as_str(), "] read: ")
    }
}

fn block_label_text(config: &PointNetConfig, k: usize) -> (r: String)
    requires
        config.encoder_dims@.len() <= 255,
        config.decoder_dims@.len() <= 255,
    ensures
        forall|h: HeaderView|
            h.encoder_dims == config.encoder_dims@ && h.decoder_dims == config.decoder_dims@
                && h.use_input_tnet == config.use_input_tnet && h.use_feature_tnet
                == config.use_feature_tnet ==> r@ == #[trigger] block_label(h, k as int),
{
    let a: usize = if config.use_input_tnet {
        6
    } else {
        0
    };
    let b: usize = if config.use_feature_tnet {
        a + 6
    } else {
        a
    };
    let c: usize = b + config.encoder_dims.len();
    let d: usize = c + config.decoder_dims.len();
    if k < a {
        tnet_label_text(k)
    } else if k < b {
        tnet_label_text(k - a)
    } else if k < c {
        let number = decimal_text((k - b) as u64);
        concat3("encoder[", number.as_str(), "] read: ")
    } else if k < d {
        let number = decimal_text((k - c) as u64);
        concat3("decoder[", number.as_str(), "] read: ")
    } else {
        "class_proj read: ".to_owned()
    }
}

fn bad_magic(b: &Vec<u8>) -> (r: String)
    requires
        b@.len() >= 4,
    ensures
        r@ == bad_magic_text(b@),
{
    let d0 = decimal_text(b[0] as u64);
    let d1 = decimal_text(b[1] as u64);
    let d2 = decimal_text(b[2] as u64);
    let d3 = decimal_text(b[3] as u64);
    let head = concat5("wbmodel: bad magic [", d0.as_str(), ", ", d1.as_str(), ", ");
    concat5(head.as_str(), d2.as_str(), ", ", d3.as_str(), "] (expected [87, 66, 77, 76])")
}

fn to_tnet(k: usize, layers: Vec<Layer>, present: bool) -> (r: Option<TNet>)
    ensures
        r is Some <==> present,
        r matches Some(t) ==> t.k == k && t.layers@ == layers@,
{
    if present {
        Some(TNet { k, layers })
    } else {
        None
    }
}

/// Reads the header: configuration, label map and its end.
fn read_header(b: &Vec<u8>) -> (r: Result<(PointNetConfig, Vec<u8>, usize), ClassifierError>)
    ensures
        r is Ok <==> has_signature(b@) && header_whole(b@),
        match r {
            Ok((config, label_map, end)) => {
                let h = header_at(b@);
                &&& config.n_features_in == h.n_features_in
                &&& config.encoder_dims@ == h.encoder_dims
                &&& config.decoder_dims@ == h.decoder_dims
                &&& config.n_classes == h.n_classes
                &&& config.use_batch_norm == h.use_batch_norm
                &&& config.use_input_tnet == h.use_input_tnet
                &&& config.use_feature_tnet == h.use_feature_tnet
                &&& label_map@ == h.label_map
                &&& end == header_end(b@)
                &&& config.n_features_in <= 255
                &&& config.n_classes <= 255
                &&& config.encoder_dims@.len() <= 255
                &&& config.decoder_dims@.len() <= 255
                &&& forall|i: int|
                    0 <= i < config.encoder_dims@.len() ==> (#[trigger] config.encoder_dims@[i])
                        <= 0xFFFF
                &&& forall|i: int|
                    0 <= i < config.decoder_dims@.len() ==> (#[trigger] config.decoder_dims@[i])
                        <= 0xFFFF
            },
            Err(e) => fails_with(b@, e),
        },
{
    let len: usize = b.len();
    if len < 4 {
        return Err(ClassifierError::UnexpectedEof);
    }
    if b[0] != 87 || b[1] != 66 || b[2] != 77 || b[3] != 76 {
        proof {
            assert(b@.take(4)[0] == b@[0]);
            assert(b@.take(4)[1] == b@[1]);
            assert(b@.take(4)[2] == b@[2]);
            assert(b@.take(4)[3] == b@[3]);
            assert(b@.take(4) != magic());
        }
        return Err(ClassifierError::Pipeline(bad_magic(b)));
    }
    assert(b@.take(4) =~= magic());
    if len < 5 {
        return Err(ClassifierError::UnexpectedEof);
    }
    if b[4] != 1 {
        let number = decimal_text(b[4] as u64);
        return Err(
            ClassifierError::Pipeline(
                concat3("wbmodel: unsupported version ", number.as_str(), " (expected 1)"),
            ),
        );
    }
    if len < 13 {
        return Err(ClassifierError::UnexpectedEof);
    }
    let n_enc: usize = b[6] as usize;
    let n_dec: usize = b[7] as usize;
    let n_classes: usize = b[8] as usize;
    let at_dec: usize = 13 + 2 * n_enc;
    let at_labels: usize = at_dec + 2 * n_dec;
    let end: usize = at_labels + n_classes;
    let encoder_dims: Vec<usize> = match read_dims(b, 13, n_enc) {
        Some(dims) => dims,
        None => {
            return Err(ClassifierError::UnexpectedEof);
        },
    };
    let decoder_dims: Vec<usize> = match read_dims(b, at_dec, n_dec) {
        Some(dims) => dims,
        None => {
            return Err(ClassifierError::UnexpectedEof);
        },
    };
    if len < end {
        return Err(ClassifierError::UnexpectedEof);
    }
    let mut label_map: Vec<u8> = Vec::new();
    let mut i: usize = 0;
    while i < n_classes
        invariant
            i <= n_classes,
            at_labels + n_classes <= b@.len(),
            b@.len() == b.len(),
            label_map@ == b@.subrange(at_labels as int, at_labels + i),
        decreases n_classes - i,
    {
        label_map.push(b[at_labels + i]);
        assert(label_map@ =~= b@.subrange(at_labels as int, at_labels + i + 1));
        i = i + 1;
    }
    let config = PointNetConfig {
        n_features_in: b[5] as usize,
        encoder_dims,
        decoder_dims,
        n_classes,
        use_batch_norm: b[9] != 0,
        use_input_tnet: b[10] != 0,
        use_feature_tnet: b[11] != 0,
    };
    Ok((config, label_map, end))
}

/// Hands the layers of a file, in file order, to the parts of the model.
fn assemble(config: PointNetConfig, label_map: Vec<u8>, all: Vec<Layer>) -> (m: PointNetClassifier)
    requires
        config.encoder_dims@.len() <= 255,
        config.decoder_dims@.len() <= 255,
        all@.len() == (if config.use_input_tnet {
            6int
        } else {
            0
        }) + (if config.use_feature_tnet {
            6int
        } else {
            0
        }) + config.encoder_dims@.len() + config.decoder_dims@.len() + 1,
        all@.last()@.bn is None,
    ensures
        m.parts_ok(),
        m.config == config,
        m.label_map == label_map,
        m.layers() == layer_views(all@),
{
    let mut layers = all;
    let ghost views = layer_views(all@);
    let n_enc: usize = config.encoder_dims.len();
    let a: usize = if config.use_input_tnet {
        6
    } else {
        0
    };
    let f: usize = if config.use_feature_tnet {
        a + 6
    } else {
        a
    };
    let c: usize = f + n_enc;
    let class_proj = match layers.pop() {
        Some(l) => l.linear,
        None => Linear { dim_in: 0, dim_out: 0, weight: Vec::new(), bias: Vec::new() },
    };
    let decoder_layers = layers.split_off(c);
    let encoder_layers = layers.split_off(f);
    let feature_layers = layers.split_off(a);
    let feature_tnet = to_tnet(64, feature_layers, config.use_feature_tnet);
    let input_tnet = to_tnet(3, layers, config.use_input_tnet);
    let m = PointNetClassifier {
        config,
        input_tnet,
        feature_tnet,
        encoder_layers,
        decoder_layers,
        class_proj,
        label_map,
    };
    proof {
        assert(m.class_proj@ =~= all@.last()@);
        assert(tnet_layers(m.input_tnet) =~= views.subrange(0, a as int));
        assert(tnet_layers(m.feature_tnet) =~= views.subrange(a as int, f as int));
        assert(layer_views(m.encoder_layers@) =~= views.subrange(f as int, c as int));
        assert(layer_views(m.decoder_layers@) =~= views.subrange(c as int, views.len() - 1));
        assert(m.layers() =~= views);
    }
    m
}

/// Decodes a `.wbmodel` file.
pub fn load_model(b: &Vec<u8>) -> (r: Result<PointNetClassifier, ClassifierError>)
    ensures
        r is Ok <==> holds_model(b@),
        match r {
            Ok(m) => {
                &&& m.parts_ok()
                &&& m.header() == header_at(b@)
                &&& m.layers() == layers_at(b@, header_end(b@), model_slots(header_at(b@)))
            },
            Err(e) => fails_with(b@, e),
        },
{
    match read_header(b) {
        Err(e) => Err(e),
        Ok((config, label_map, end)) => {
            let ghost h = header_at(b@);
            let slots = block_slots(&config);
            assert(slots@ == model_slots(h));
            match read_blocks(b, end, &slots) {
                Err(k) => {
                    proof {
                        lemma_ends_in_short(b@, end as int, slots@, k as int);
                    }
                    let label = block_label_text(&config, k);
                    assert(label@ == block_label(h, k as int));
                    Err(
                        ClassifierError::Pipeline(
                            concat2(label.as_str(), "I/O error: failed to fill whole buffer"),
                        ),
                    )
                },
                Ok((all, _)) => {
                    proof {
                        let n = all@.len();
                        assert(slots@[n - 1] == projection_slot(h));
                        assert(layer_views(all@)[n - 1] == all@[n - 1]@);
                    }
                    let m = assemble(config, label_map, all);
                    assert(m.header() =~= h);
                    Ok(m)
                },
            }
        },
    }
}

// ── Encoding ────────────────────────────────────────────────────────────────

/// The encodings of the dimensions, one after the other.
pub open spec fn dims_bytes(dims: Seq<usize>) -> Seq<u8>
    decreases dims.len(),
{
    if dims.len() == 0 {
        Seq::empty()
    } else {
        dims_bytes(dims.drop_last()) + le16(dims.last() as u16)
    }
}

pub open spec fn flag_byte(f: bool) -> u8 {
    if f {
        1
    } else {
        0
    }
}

/// The bytes of the header.
pub open spec fn header_bytes(h: HeaderView) -> Seq<u8> {
    magic() + seq![
        1u8,
        h.n_features_in as u8,
        h.encoder_dims.len() as u8,
        h.decoder_dims.len() as u8,
        h.n_classes as u8,
        flag_byte(h.use_batch_norm),
        flag_byte(h.use_input_tnet),
        flag_byte(h.use_feature_tnet),
        0u8,
    ] + dims_bytes(h.encoder_dims) + dims_bytes(h.decoder_dims) + h.label_map
}

/// The bytes of a run of layers, each with or without its normalisation.
pub open spec fn run_bytes(layers: Seq<LayerView>, norms: Seq<bool>) -> Seq<u8>
    decreases layers.len(),
{
    if layers.len() == 0 {
        Seq::empty()
    } else {
        run_bytes(layers.drop_last(), norms.drop_last()) + layer_bytes(layers.last(), norms.last())
    }
}

/// Normalised are the first `limit` of `n` layers, where `norm` is set.
pub open spec fn run_norms(n: nat, norm: bool, limit: int) -> Seq<bool> {
    Seq::new(n, |i: int| norm && i < limit)
}

pub open spec fn tnet_norms(t: Option<TNet>, norm: bool) -> Seq<bool> {
    match t {
        Some(t) => run_norms(t.layers@.len(), norm, 5),
        None => Seq::empty(),
    }
}

impl PointNetClassifier {
    /// Which layers are written with their normalisation.
    pub open spec fn norms(self) -> Seq<bool> {
        let norm = self.config.use_batch_norm;
        let e = self.encoder_layers@.len();
        let d = self.decoder_layers@.len();
        tnet_norms(self.input_tnet, norm) + tnet_norms(self.feature_tnet, norm) + run_norms(
            e,
            norm,
            e as int,
        ) + run_norms(d, norm, d as int) + seq![false]
    }

    /// The bytes of the file that holds this model.
    pub open spec fn bytes(self) -> Seq<u8> {
        header_bytes(self.header()) + run_bytes(self.layers(), self.norms())
    }

    /// The first part of the header that does not fit its field, as a message.
    pub open spec fn misfit(self) -> Option<Seq<char>> {
        let c = self.config;
        if c.n_features_in > 255 {
            Some("n_features_in exceeds u8"@)
        } else if c.encoder_dims@.len() > 255 {
            Some("encoder_dims.len() exceeds u8"@)
        } else if c.decoder_dims@.len() > 255 {
            Some("decoder_dims.len() exceeds u8"@)
        } else if c.n_classes > 255 {
            Some("n_classes exceeds u8"@)
        } else if exists|i: int|
            0 <= i < c.encoder_dims@.len() && (#[trigger] c.encoder_dims@[i]) > 0xFFFF {
            Some("encoder dim exceeds u16"@)
        } else if exists|i: int|
            0 <= i < c.decoder_dims@.len() && (#[trigger] c.decoder_dims@[i]) > 0xFFFF {
            Some("decoder dim exceeds u16"@)
        } else {
            None
        }
    }
}

/// A transform net can be written: where it is to be normalised, its first
/// five layers have the parameters for it.
pub open spec fn tnet_writable(t: Option<TNet>, norm: bool) -> bool {
    t matches Some(t) ==> norm ==> forall|i: int|
        0 <= i < t.layers@.len() && i < 5 ==> (#[trigger] t.layers@[i]).bn is Some
}

proof fn lemma_run_bytes_split(
    a: Seq<LayerView>,
    na: Seq<bool>,
    b: Seq<LayerView>,
    nb: Seq<bool>,
)
    requires
        a.len() == na.len(),
        b.len() == nb.len(),
    ensures
        run_bytes(a + b, na + nb) == run_bytes(a, na) + run_bytes(b, nb),
    decreases b.len(),
{
    if b.len() == 0 {
        assert(a + b =~= a);
        assert(na + nb =~= na);
        assert(run_bytes(a, na) + run_bytes(b, nb) =~= run_bytes(a, na));
    } else {
        lemma_run_bytes_split(a, na, b.drop_last(), nb.drop_last());
        assert((a + b).drop_last() =~= a + b.drop_last());
        assert((na + nb).drop_last() =~= na + nb.drop_last());
        assert(run_bytes(a + b, na + nb) =~= run_bytes(a, na) + run_bytes(b, nb));
    }
}

fn write_layer(out: &mut Vec<u8>, layer: &Layer, norm: bool)
    ensures
        final(out)@ == old(out)@ + layer_bytes(layer@, norm),
{
    push_words(out, &layer.linear.weight);
    push_words(out, &layer.linear.bias);
    if norm {
        match &layer.bn {
            Some(n) => {
                push_words(out, &n.gamma);
                push_words(out, &n.beta);
                push_words(out, &n.mean);
                push_words(out, &n.var);
            },
            None => {},
        }
    }
    assert(out@ =~= old(out)@ + layer_bytes(layer@, norm));
}

fn write_run(out: &mut Vec<u8>, layers: &Vec<Layer>, norm: bool, limit: usize)
    ensures
        final(out)@ == old(out)@ + run_bytes(
            layer_views(layers@),
            run_norms(layers@.len(), norm, limit as int),
        ),
{
    let ghost views = layer_views(layers@);
    let ghost norms = run_norms(layers@.len(), norm, limit as int);
    let mut i: usize = 0;
    assert(views.take(0) =~= Seq::empty());
    assert(out@ =~= old(out)@ + run_bytes(views.take(0), norms.take(0)));
    while i < layers.len()
        invariant
            i <= layers@.len(),
            views == layer_views(layers@),
            norms == run_norms(layers@.len(), norm, limit as int),
            out@ == old(out)@ + run_bytes(views.take(i as int), norms.take(i as int)),
        decreases layers@.len() - i,
    {
        write_layer(out, &layers[i], norm && i < limit);
        proof {
            assert(views.take(i + 1).drop_last() =~= views.take(i as int));
            assert(norms.take(i + 1).drop_last() =~= norms.take(i as int));
            assert(views.take(i + 1).last() == layers@[i as int]@);
            assert(norms.take(i + 1).last() == (norm && i < limit));
            assert(out@ =~= old(out)@ + run_bytes(views.take(i + 1), norms.take(i + 1)));
        }
        i = i + 1;
    }
    assert(views.take(i as int) =~= views);
    assert(norms.take(i as int) =~= norms);
}

fn write_tnet(out: &mut Vec<u8>, t: &Option<TNet>, norm: bool)
    requires
        tnet_writable(*t, norm),
    ensures
        final(out)@ == old(out)@ + run_bytes(tnet_layers(*t), tnet_norms(*t, norm)),
{
    match t {
        Some(t) => write_run(out, &t.layers, norm, 5),
        None => {
            assert(out@ =~= old(out)@ + run_bytes(tnet_layers(*t), tnet_norms(*t, norm)));
        },
    }
}

fn has_wide_dim(dims: &Vec<usize>) -> (r: bool)
    ensures
        r == exists|i: int| 0 <= i < dims@.len() && (#[trigger] dims@[i]) > 0xFFFF,
{
    let mut i: usize = 0;
    while i < dims.len()
        invariant
            i <= dims@.len(),
            forall|k: int| 0 <= k < i ==> (#[trigger] dims@[k]) <= 0xFFFF,
        decreases dims@.len() - i,
    {
        if dims[i] > 0xFFFF {
            assert(dims@[i as int] > 0xFFFF);
            return true;
        }
        i = i + 1;
    }
    false
}

fn write_dims(out: &mut Vec<u8>, dims: &Vec<usize>)
    ensures
        final(out)@ == old(out)@ + dims_bytes(dims@),
{
    let mut i: usize = 0;
    assert(dims@.take(0) =~= Seq::empty());
    assert(out@ =~= old(out)@ + dims_bytes(dims@.take(0)));
    while i < dims.len()
        invariant
            i <= dims@.len(),
            out@ == old(out)@ + dims_bytes(dims@.take(i as int)),
        decreases dims@.len() - i,
    {
        push_u16(out, dims[i] as u16);
        proof {
            assert(dims@.take(i + 1).drop_last() =~= dims@.take(i as int));
            assert(dims@.take(i + 1).last() == dims@[i as int]);
            assert(out@ =~= old(out)@ + dims_bytes(dims@.take(i + 1)));
        }
        i = i + 1;
    }
    assert(dims@.take(i as int) =~= dims@);
}

fn flag_of(f: bool) -> (r: u8)
    ensures
        r == flag_byte(f),
{
    if f {
        1
    } else {
        0
    }
}

/// The header, or the message of the first part that does not fit its field.
fn write_header(model: &PointNetClassifier) -> (r: Result<Vec<u8>, ClassifierError>)
    ensures
        r is Ok <==> model.misfit() is None,
        match r {
            Ok(b) => b@ == header_bytes(model.header()),
            Err(e) => e matches ClassifierError::Pipeline(m) && model.misfit() == Some(m@),
        },
{
    let cfg = &model.config;
    if cfg.n_features_in > 255 {
        return Err(ClassifierError::Pipeline("n_features_in exceeds u8".to_owned()));
    }
    if cfg.encoder_dims.len() > 255 {
        return Err(ClassifierError::Pipeline("encoder_dims.len() exceeds u8".to_owned()));
    }
    if cfg.decoder_dims.len() > 255 {
        return Err(ClassifierError::Pipeline("decoder_dims.len() exceeds u8".to_owned()));
    }
    if cfg.n_classes > 255 {
        return Err(ClassifierError::Pipeline("n_classes exceeds u8".to_owned()));
    }
    if has_wide_dim(&cfg.encoder_dims) {
        return Err(ClassifierError::Pipeline("encoder dim exceeds u16".to_owned()));
    }
    if has_wide_dim(&cfg.decoder_dims) {
        return Err(ClassifierError::Pipeline("decoder dim exceeds u16".to_owned()));
    }
    let mut out: Vec<u8> = vec![87, 66, 77, 76, 1];
    out.push(cfg.n_features_in as u8);
    out.push(cfg.encoder_dims.len() as u8);
    out.push(cfg.decoder_dims.len() as u8);
    out.push(cfg.n_classes as u8);
    out.push(flag_of(cfg.use_batch_norm));
    out.push(flag_of(cfg.use_input_tnet));
    out.push(flag_of(cfg.use_feature_tnet));
    out.push(0);
    let ghost start = out@;
    proof {
        let h = model.header();
        assert(start =~= magic() + seq![
            1u8,
            h.n_features_in as u8,
            h.encoder_dims.len() as u8,
            h.decoder_dims.len() as u8,
            h.n_classes as u8,
            flag_byte(h.use_batch_norm),
            flag_byte(h.use_input_tnet),
            flag_byte(h.use_feature_tnet),
            0u8,
        ]);
    }
    write_dims(&mut out, &cfg.encoder_dims);
    write_dims(&mut out, &cfg.decoder_dims);
    push_bytes(&mut out, &model.label_map);
    Ok(out)
}

proof fn lemma_body_bytes(model: PointNetClassifier)
    ensures
        ({
            let norm = model.config.use_batch_norm;
            let l3 = layer_views(model.encoder_layers@);
            let l4 = layer_views(model.decoder_layers@);
            run_bytes(model.layers(), model.norms()) == run_bytes(
                tnet_layers(model.input_tnet),
                tnet_norms(model.input_tnet, norm),
            ) + run_bytes(
                tnet_layers(model.feature_tnet),
                tnet_norms(model.feature_tnet, norm),
            ) + run_bytes(l3, run_norms(l3.len(), norm, l3.len() as int)) + run_bytes(
                l4,
                run_norms(l4.len(), norm, l4.len() as int),
            ) + (le_words(model.class_proj.weight@) + le_words(model.class_proj.bias@))
        }),
{
    let norm = model.config.use_batch_norm;
    let l1 = tnet_layers(model.input_tnet);
    let n1 = tnet_norms(model.input_tnet, norm);
    let l2 = tnet_layers(model.feature_tnet);
    let n2 = tnet_norms(model.feature_tnet, norm);
    let l3 = layer_views(model.encoder_layers@);
    let n3 = run_norms(l3.len(), norm, l3.len() as int);
    let l4 = layer_views(model.decoder_layers@);
    let n4 = run_norms(l4.len(), norm, l4.len() as int);
    let l5 = seq![model.class_proj@];
    let n5 = seq![false];
    lemma_run_bytes_split(l1, n1, l2, n2);
    lemma_run_bytes_split(l1 + l2, n1 + n2, l3, n3);
    lemma_run_bytes_split(l1 + l2 + l3, n1 + n2 + n3, l4, n4);
    lemma_run_bytes_split(l1 + l2 + l3 + l4, n1 + n2 + n3 + n4, l5, n5);
    assert(l5.drop_last() =~= Seq::empty());
    assert(run_bytes(l5.drop_last(), n5.drop_last()) =~= Seq::empty());
    assert(run_bytes(l5, n5) =~= layer_bytes(model.class_proj@, false));
}

proof fn lemma_appended(h: Seq<u8>, a: Seq<u8>, b: Seq<u8>, c: Seq<u8>, d: Seq<u8>, e: Seq<u8>, f: Seq<u8>)
    ensures
        h + a + b + c + d + e + f == h + (a + b + c + d + (e + f)),
{
    assert(h + a + b + c + d + e + f =~= h + (a + b + c + d + (e + f)));
}

fn write_body(out: &mut Vec<u8>, model: &PointNetClassifier)
    requires
        tnet_writable(model.input_tnet, model.config.use_batch_norm),
        tnet_writable(model.feature_tnet, model.config.use_batch_norm),
    ensures
        final(out)@ == old(out)@ + run_bytes(model.layers(), model.norms()),
{
    let norm: bool = model.config.use_batch_norm;
    write_tnet(out, &model.input_tnet, norm);
    write_tnet(out, &model.feature_tnet, norm);
    write_run(out, &model.encoder_layers, norm, model.encoder_layers.len());
    write_run(out, &model.decoder_layers, norm, model.decoder_layers.len());
    push_words(out, &model.class_proj.weight);
    push_words(out, &model.class_proj.bias);
    proof {
        lemma_body_bytes(*model);
        let l3 = layer_views(model.encoder_layers@);
        let l4 = layer_views(model.decoder_layers@);
        lemma_appended(
            old(out)@,
            run_bytes(tnet_layers(model.input_tnet), tnet_norms(model.input_tnet, norm)),
            run_bytes(tnet_layers(model.feature_tnet), tnet_norms(model.feature_tnet, norm)),
            run_bytes(l3, run_norms(l3.len(), norm, l3.len() as int)),
            run_bytes(l4, run_norms(l4.len(), norm, l4.len() as int)),
            le_words(model.class_proj.weight@),
            le_words(model.class_proj.bias@),
        );
    }
}

/// Encodes a classifier as a `.wbmodel` file.
pub fn save_model(model: &PointNetClassifier) -> (r: Result<Vec<u8>, ClassifierError>)
    requires
        tnet_writable(model.input_tnet, model.config.use_batch_norm),
        tnet_writable(model.feature_tnet, model.config.use_batch_norm),
    ensures
        r is Ok <==> model.misfit() is None,
        match r {
            Ok(b) => b@ == model.bytes(),
            Err(e) => e matches ClassifierError::Pipeline(m) && model.misfit() == Some(m@),
        },
{
    match write_header(model) {
        Err(e) => Err(e),
        Ok(head) => {
            let mut out = head;
            write_body(&mut out, model);
            Ok(out)
        },
    }
}

// ── What a read gives back of a write ───────────────────────────────────────

/// The model's tensors have the shapes that its configuration gives them.
pub open spec fn well_formed(m: PointNetClassifier) -> bool {
    let slots = model_slots(m.header());
    &&& m.parts_ok()
    &&& m.misfit() is None
    &&& m.label_map@.len() == m.config.n_classes
    &&& m.layers().len() == slots.len()
    &&& forall|i: int| 0 <= i < slots.len() ==> matches_slot(#[trigger] m.layers()[i], slots[i])
}

pub proof fn lemma_layer_round_trip(b: Seq<u8>, pos: int, l: LayerView, s: Slot)
    requires
        matches_slot(l, s),
        stands_at(b, pos, layer_bytes(l, s.bn)),
    ensures
        layer_at(b, pos, s) == l,
        layer_bytes(l, s.bn).len() == slot_len(s),
{
    let w = le_words(l.weight);
    let c = le_words(l.bias);
    crate::codec::lemma_le_words_len(l.weight);
    crate::codec::lemma_le_words_len(l.bias);
    match l.bn {
        Some(n) => {
            let (g, be, me, va) = (le_words(n.gamma), le_words(n.beta), le_words(n.mean), le_words(n.var));
            crate::codec::lemma_le_words_len(n.gamma);
            crate::codec::lemma_le_words_len(n.beta);
            crate::codec::lemma_le_words_len(n.mean);
            crate::codec::lemma_le_words_len(n.var);
            crate::codec::lemma_stands_split(b, pos, w + c + g + be + me, va);
            crate::codec::lemma_stands_split(b, pos, w + c + g + be, me);
            crate::codec::lemma_stands_split(b, pos, w + c + g, be);
            crate::codec::lemma_stands_split(b, pos, w + c, g);
            crate::codec::lemma_stands_split(b, pos, w, c);
            let norm = pos + 4 * l.weight.len() + 4 * l.bias.len();
            crate::codec::law_words_round_trip(b, norm, n.gamma);
            crate::codec::law_words_round_trip(b, norm + 4 * s.dim_out, n.beta);
            crate::codec::law_words_round_trip(b, norm + 8 * s.dim_out, n.mean);
            crate::codec::law_words_round_trip(b, norm + 12 * s.dim_out, n.var);
        },
        None => {
            crate::codec::lemma_stands_split(b, pos, w, c);
        },
    }
    crate::codec::law_words_round_trip(b, pos, l.weight);
    crate::codec::law_words_round_trip(b, pos + 4 * l.weight.len(), l.bias);
    assert(layer_at(b, pos, s) =~= l);
}

proof fn lemma_run_round_trip(b: Seq<u8>, pos: int, layers: Seq<LayerView>, slots: Seq<Slot>, k: int)
    requires
        layers.len() == slots.len(),
        0 <= k <= slots.len(),
        forall|i: int| 0 <= i < slots.len() ==> matches_slot(#[trigger] layers[i], slots[i]),
        stands_at(b, pos, run_bytes(layers.take(k), slots.take(k).map_values(|s: Slot| s.bn))),
    ensures
        run_bytes(layers.take(k), slots.take(k).map_values(|s: Slot| s.bn)).len() == slots_end(
            slots,
            k,
        ),
        forall|i: int|
            0 <= i < k ==> layer_at(b, pos + slots_end(slots, i), #[trigger] slots[i]) == layers[i],
    decreases k,
{
    let norms = slots.take(k).map_values(|s: Slot| s.bn);
    if k > 0 {
        let d = layers.take(k).drop_last();
        assert(d =~= layers.take(k - 1));
        assert(norms.drop_last() =~= slots.take(k - 1).map_values(|s: Slot| s.bn));
        let l = layers[k - 1];
        let s = slots[k - 1];
        assert(layers.take(k).last() == l);
        assert(norms.last() == s.bn);
        crate::codec::lemma_stands_split(
            b,
            pos,
            run_bytes(d, norms.drop_last()),
            layer_bytes(l, s.bn),
        );
        lemma_run_round_trip(b, pos, layers, slots, k - 1);
        assert(matches_slot(l, s));
        lemma_layer_round_trip(b, pos + slots_end(slots, k - 1), l, s);
    }
}

proof fn lemma_dims_round_trip(b: Seq<u8>, pos: int, dims: Seq<usize>)
    requires
        stands_at(b, pos, dims_bytes(dims)),
        forall|i: int| 0 <= i < dims.len() ==> (#[trigger] dims[i]) <= 0xFFFF,
    ensures
        dims_bytes(dims).len() == 2 * dims.len(),
        dims_at(b, pos, dims.len()) == dims,
    decreases dims.len(),
{
    if dims.len() > 0 {
        let d = dims.drop_last();
        crate::codec::lemma_stands_split(b, pos, dims_bytes(d), le16(dims.last() as u16));
        assert forall|i: int| 0 <= i < d.len() implies (#[trigger] d[i]) <= 0xFFFF by {
            assert(dims[i] == d[i]);
        }
        lemma_dims_round_trip(b, pos, d);
        assert(dims[dims.len() - 1] <= 0xFFFF);
        crate::codec::law_u16_round_trip(b, pos + 2 * d.len(), dims.last() as u16);
        assert forall|i: int| 0 <= i < dims.len() implies dims_at(b, pos, dims.len())[i] == dims[i] by {
            if i < d.len() {
                assert(dims_at(b, pos, d.len())[i] == d[i]);
            }
        }
    }
    assert(dims_at(b, pos, dims.len()) =~= dims);
}

proof fn lemma_header_round_trip(b: Seq<u8>, m: PointNetClassifier)
    requires
        m.misfit() is None,
        m.label_map@.len() == m.config.n_classes,
        stands_at(b, 0, header_bytes(m.header())),
    ensures
        has_signature(b),
        header_whole(b),
        header_at(b) == m.header(),
        header_end(b) == header_bytes(m.header()).len(),
{
    let h = m.header();
    let fixed = magic() + seq![
        1u8,
        h.n_features_in as u8,
        h.encoder_dims.len() as u8,
        h.decoder_dims.len() as u8,
        h.n_classes as u8,
        flag_byte(h.use_batch_norm),
        flag_byte(h.use_input_tnet),
        flag_byte(h.use_feature_tnet),
        0u8,
    ];
    let enc = dims_bytes(h.encoder_dims);
    let dec = dims_bytes(h.decoder_dims);
    crate::codec::lemma_stands_split(b, 0, fixed + enc + dec, h.label_map);
    crate::codec::lemma_stands_split(b, 0, fixed + enc, dec);
    crate::codec::lemma_stands_split(b, 0, fixed, enc);
    let w = b.subrange(0, 13);
    assert(w == fixed);
    assert(forall|i: int| 0 <= i < 13 ==> b[i] == #[trigger] w[i]);
    assert(b[0] == w[0] && b[1] == w[1] && b[2] == w[2] && b[3] == w[3] && b[4] == w[4]);
    assert(b[5] == w[5] && b[6] == w[6] && b[7] == w[7] && b[8] == w[8]);
    assert(b[9] == w[9] && b[10] == w[10] && b[11] == w[11]);
    assert(b.take(4) =~= magic());
    lemma_dims_round_trip(b, 13, h.encoder_dims);
    lemma_dims_round_trip(b, 13 + 2 * h.encoder_dims.len() as int, h.decoder_dims);
    assert(header_at(b) =~= h);
}

/// Reading a file that was written gives the model back, bit for bit: the same
/// configuration, label map and tensors. Bytes behind the model do not matter.
pub proof fn law_model_round_trip(m: PointNetClassifier, b: Seq<u8>)
    requires
        well_formed(m),
        stands_at(b, 0, m.bytes()),
    ensures
        holds_model(b),
        header_at(b) == m.header(),
        layers_at(b, header_end(b), model_slots(header_at(b))) == m.layers(),
{
    let h = m.header();
    let head = header_bytes(h);
    let body = run_bytes(m.layers(), m.norms());
    crate::codec::lemma_stands_split(b, 0, head, body);
    lemma_header_round_trip(b, m);
    let slots = model_slots(h);
    let n = slots.len() as int;
    lemma_norms_are_slots(m);
    assert(m.layers().take(n) =~= m.layers());
    assert(slots.take(n) =~= slots);
    lemma_run_round_trip(b, head.len() as int, m.layers(), slots, n);
    assert(layers_at(b, header_end(b), slots) =~= m.layers());
}

proof fn lemma_norms_are_slots(m: PointNetClassifier)
    requires
        well_formed(m),
    ensures
        m.norms() == model_slots(m.header()).map_values(|s: Slot| s.bn),
{
    let h = m.header();
    let norm = m.config.use_batch_norm;
    assert(tnet_norms(m.input_tnet, norm) =~= input_slots(h).map_values(|s: Slot| s.bn));
    assert(tnet_norms(m.feature_tnet, norm) =~= feature_slots(h).map_values(|s: Slot| s.bn));
    let e = h.encoder_dims.len();
    let d = h.decoder_dims.len();
    assert(run_norms(e, norm, e as int) =~= encoder_slots(h).map_values(|s: Slot| s.bn));
    assert(run_norms(d, norm, d as int) =~= decoder_slots(h).map_values(|s: Slot| s.bn));
    assert(m.norms() =~= model_slots(h).map_values(|s: Slot| s.bn));
}

} // verus!
