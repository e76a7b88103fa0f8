//! What stands where in a model file.

use vstd::prelude::*;

use crate::codec::{stands_at, u16_at, words_at};
use crate::model::pointnet::{LayerView, PointNetClassifier};
use crate::model::weights::{
    decoder_slots, encoder_slots, feature_slots, header_at, input_slots, law_model_round_trip,
    layer_at, layer_bytes, lemma_layer_round_trip, matches_slot, model_slots, projection_slot,
    well_formed, HeaderView, Slot,
};

verus! {

/// A model file starts with `WBML` and version 1; then stand the numbers of
/// features, encoder layers, decoder layers and classes, three flags and a zero,
/// the layers' widths, two bytes each, and the label map.
pub proof fn law_model_file_layout(m: PointNetClassifier, b: Seq<u8>)
    requires
        well_formed(m),
        stands_at(b, 0, m.bytes()),
    ensures
        ({
            let e = m.config.encoder_dims@.len() as int;
            let d = m.config.decoder_dims@.len() as int;
            &&& b[0] == 87 && b[1] == 66 && b[2] == 77 && b[3] == 76 && b[4] == 1
            &&& b[5] == m.config.n_features_in
            &&& b[6] == e
            &&& b[7] == d
            &&& b[8] == m.config.n_classes
            &&& (b[9] != 0) == m.config.use_batch_norm
            &&& (b[10] != 0) == m.config.use_input_tnet
            &&& (b[11] != 0) == m.config.use_feature_tnet
            &&& forall|i: int|
                0 <= i < e ==> #[trigger] m.config.encoder_dims@[i] == u16_at(b, 13 + 2 * i)
            &&& forall|i: int|
                0 <= i < d ==> #[trigger] m.config.decoder_dims@[i] == u16_at(b, 13 + 2 * e + 2 * i)
            &&& forall|i: int|
                0 <= i < m.config.n_classes ==> #[trigger] m.label_map@[i] == b[13 + 2 * e + 2 * d
                    + i]
        }),
{
    law_model_round_trip(m, b);
    let h = header_at(b);
    assert(h == m.header());
    let t = b.take(4);
    assert(t[0] == b[0] && t[1] == b[1] && t[2] == b[2] && t[3] == b[3]);
    let e = m.config.encoder_dims@.len() as int;
    let d = m.config.decoder_dims@.len() as int;
    assert(e == b[6]) by {
        assert(h.encoder_dims.len() == b[6]);
    }
    assert(d == b[7]) by {
        assert(h.decoder_dims.len() == b[7]);
    }
    assert(m.label_map@ == h.label_map);
    assert(m.label_map@.len() == b[8]);
}

/// A layer's weights stand first, then its biases, then the scales, offsets,
/// means and variances of its normalisation where it has one.
pub proof fn law_layer_layout(b: Seq<u8>, pos: int, l: LayerView, s: Slot)
    requires
        matches_slot(l, s),
        stands_at(b, pos, layer_bytes(l, s.bn)),
    ensures
        ({
            let w = l.weight.len() as int;
            let n = l.bias.len() as int;
            &&& words_at(b, pos, w as nat) == l.weight
            &&& words_at(b, pos + 4 * w, n as nat) == l.bias
            &&& l.bn is Some ==> words_at(b, pos + 4 * (w + n), n as nat) == l.bn.unwrap().gamma
            &&& l.bn is Some ==> words_at(b, pos + 4 * (w + 2 * n), n as nat) == l.bn.unwrap().beta
            &&& l.bn is Some ==> words_at(b, pos + 4 * (w + 3 * n), n as nat) == l.bn.unwrap().mean
            &&& l.bn is Some ==> words_at(b, pos + 4 * (w + 4 * n), n as nat) == l.bn.unwrap().var
            &&& layer_bytes(l, s.bn).len() == 4 * (w + n) + if l.bn is Some {
                16 * n
            } else {
                0
            }
        }),
{
    lemma_layer_round_trip(b, pos, l, s);
    let r = layer_at(b, pos, s);
    assert(r == l);
    let w = l.weight.len() as int;
    let n = l.bias.len() as int;
    assert(w == s.dim_out * s.dim_in);
    assert(n == s.dim_out);
    if l.bn is Some {
        assert(r.bn == l.bn);
        assert(pos + 4 * w + 4 * n == pos + 4 * (w + n));
        assert(pos + 4 * w + 4 * n + 4 * n == pos + 4 * (w + 2 * n));
        assert(pos + 4 * w + 4 * n + 8 * n == pos + 4 * (w + 3 * n));
        assert(pos + 4 * w + 4 * n + 12 * n == pos + 4 * (w + 4 * n));
    }
}

/// The layers of a transform net for rows of `k` numbers.
pub open spec fn is_net(s: Seq<Slot>, k: int, bn: bool) -> bool {
    &&& s.len() == 6
    &&& s[0].dim_in == k && s[0].dim_out == 64
    &&& s[1].dim_in == 64 && s[1].dim_out == 128
    &&& s[2].dim_in == 128 && s[2].dim_out == 1024
    &&& s[3].dim_in == 1024 && s[3].dim_out == 512
    &&& s[4].dim_in == 512 && s[4].dim_out == 256
    &&& s[5].dim_in == 256 && s[5].dim_out == k * k
    &&& s[0].bn == bn && s[1].bn == bn && s[2].bn == bn && s[3].bn == bn && s[4].bn == bn
    &&& !s[5].bn
}

/// How many layers the transform nets have together.
pub open spec fn net_layers(h: HeaderView) -> int {
    (if h.use_input_tnet {
        6int
    } else {
        0
    }) + if h.use_feature_tnet {
        6int
    } else {
        0
    }
}

/// The transform nets' layers come first, the input transform's before the
/// feature transform's.
pub proof fn law_net_shapes(h: HeaderView)
    ensures
        h.use_input_tnet ==> is_net(model_slots(h).take(6), 3, h.use_batch_norm),
        h.use_feature_tnet ==> is_net(
            model_slots(h).subrange(net_layers(h) - 6, net_layers(h)),
            64,
            h.use_batch_norm,
        ),
{
    let s = model_slots(h);
    if h.use_input_tnet {
        assert(s.take(6) =~= input_slots(h));
    }
    if h.use_feature_tnet {
        assert(s.subrange(net_layers(h) - 6, net_layers(h)) =~= feature_slots(h));
    }
}

/// The encoder's layers come behind the nets'. The first takes the features,
/// each further one what the one before gives.
pub proof fn law_encoder_shapes(h: HeaderView, i: int)
    requires
        0 <= i < h.encoder_dims.len(),
        0 <= h.n_features_in <= usize::MAX,
    ensures
        ({
            let l = model_slots(h)[net_layers(h) + i];
            &&& i == 0 ==> l.dim_in == h.n_features_in
            &&& i > 0 ==> l.dim_in == h.encoder_dims[i - 1]
            &&& l.dim_out == h.encoder_dims[i]
            &&& l.bn == h.use_batch_norm
        }),
{
    assert(model_slots(h)[net_layers(h) + i] == encoder_slots(h)[i]);
}

/// The decoder's layers come behind the encoder's. The first takes the first
/// and the last width of the encoder together, each further one what the one
/// before gives.
pub proof fn law_decoder_shapes(h: HeaderView, i: int)
    requires
        h.encoder_dims.len() > 0,
        h.encoder_dims[0] + h.encoder_dims.last() <= usize::MAX,
        0 <= i < h.decoder_dims.len(),
    ensures
        ({
            let l = model_slots(h)[net_layers(h) + h.encoder_dims.len() + i];
            &&& i == 0 ==> l.dim_in == h.encoder_dims[0] + h.encoder_dims.last()
            &&& i > 0 ==> l.dim_in == h.decoder_dims[i - 1]
            &&& l.dim_out == h.decoder_dims[i]
            &&& l.bn == h.use_batch_norm
        }),
{
    assert(model_slots(h)[net_layers(h) + h.encoder_dims.len() + i] == decoder_slots(h)[i]);
}

/// The projection comes last. It takes what the decoder gives, or what the
/// decoder would take where there is none, gives a number for each class, and is
/// not normalised.
pub proof fn law_projection_shape(h: HeaderView)
    requires
        h.encoder_dims.len() > 0,
        h.encoder_dims[0] + h.encoder_dims.last() <= usize::MAX,
        0 <= h.n_classes <= usize::MAX,
    ensures
        model_slots(h).len() == net_layers(h) + h.encoder_dims.len() + h.decoder_dims.len() + 1,
        ({
            let l = model_slots(h).last();
            &&& h.decoder_dims.len() == 0 ==> l.dim_in == h.encoder_dims[0] + h.encoder_dims.last()
            &&& h.decoder_dims.len() > 0 ==> l.dim_in == h.decoder_dims.last()
            &&& l.dim_out == h.n_classes
            &&& !l.bn
        }),
{
    assert(model_slots(h).last() == projection_slot(h));
}

} // verus!
