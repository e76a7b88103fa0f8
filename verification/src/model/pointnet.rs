//! `PointNet` segmentation classifier: configuration and weight tensors.
//!
//! Every tensor element is the bit pattern of a 32-bit floating-point number.

use vstd::prelude::*;

verus! {

/// Configuration of a classifier.
#[derive(Debug)]
pub struct PointNetConfig {
    /// Number of input features per point.
    pub n_features_in: usize,
    /// Hidden dimensions of the encoder; the first one is the width of the
    /// local feature.
    pub encoder_dims: Vec<usize>,
    /// Hidden dimensions of the decoder, before the class projection.
    pub decoder_dims: Vec<usize>,
    /// Number of output classes.
    pub n_classes: usize,
    /// When `false`, all batch normalisation is bypassed.
    pub use_batch_norm: bool,
    /// Whether the input transform (3x3) is present.
    pub use_input_tnet: bool,
    /// Whether the feature transform (64x64) is present.
    pub use_feature_tnet: bool,
}

/// Local plus global feature width, with defaults for an empty encoder.
pub open spec fn concat_width(encoder_dims: Seq<usize>) -> int {
    if encoder_dims.len() == 0 {
        320
    } else {
        encoder_dims[0] + encoder_dims.last()
    }
}

impl PointNetConfig {
    /// The width of the segmentation concat: the first encoder dimension
    /// (local) plus the last one (global).
    pub fn concat_dim(&self) -> (r: usize)
        requires
            concat_width(self.encoder_dims@) <= usize::MAX,
        ensures
            r == concat_width(self.encoder_dims@),
    {
        let n: usize = self.encoder_dims.len();
        if n == 0 {
            64 + 256
        } else {
            self.encoder_dims[0] + self.encoder_dims[n - 1]
        }
    }
}

/// The widths of the standard encoder.
pub open spec fn canonical_encoder() -> Seq<usize> {
    seq![64usize, 64, 64, 128, 1024]
}

/// The widths of the standard decoder.
pub open spec fn canonical_decoder() -> Seq<usize> {
    seq![512usize, 256]
}

/// The widths of the standard encoder. Local and global features together are
/// 1088 wide.
pub fn canonical_encoder_dims() -> (r: Vec<usize>)
    ensures
        r@ == canonical_encoder(),
        concat_width(r@) == 1088,
{
    let r: Vec<usize> = vec![64, 64, 64, 128, 1024];
    assert(r@ =~= canonical_encoder());
    r
}

/// The widths of the standard decoder.
pub fn canonical_decoder_dims() -> (r: Vec<usize>)
    ensures
        r@ == canonical_decoder(),
{
    let r: Vec<usize> = vec![512, 256];
    assert(r@ =~= canonical_decoder());
    r
}

/// A dense layer: `weight` holds `dim_out` rows of `dim_in` elements.
#[derive(Debug)]
pub struct Linear {
    pub dim_in: usize,
    pub dim_out: usize,
    pub weight: Vec<u32>,
    pub bias: Vec<u32>,
}

/// Inference-time batch normalisation parameters.
#[derive(Debug)]
pub struct BatchNorm1d {
    pub gamma: Vec<u32>,
    pub beta: Vec<u32>,
    pub mean: Vec<u32>,
    pub var: Vec<u32>,
}

/// A dense layer with its optional normalisation.
#[derive(Debug)]
pub struct Layer {
    pub linear: Linear,
    pub bn: Option<BatchNorm1d>,
}

/// A transform net: three encoder layers, then three fully connected ones, the
/// last of which has no normalisation.
#[derive(Debug)]
pub struct TNet {
    pub k: usize,
    pub layers: Vec<Layer>,
}

/// The full classifier.
#[derive(Debug)]
pub struct PointNetClassifier {
    pub config: PointNetConfig,
    pub input_tnet: Option<TNet>,
    pub feature_tnet: Option<TNet>,
    pub encoder_layers: Vec<Layer>,
    pub decoder_layers: Vec<Layer>,
    /// Final class projection; never normalised.
    pub class_proj: Linear,
    /// Maps model output index to ASPRS classification code.
    pub label_map: Vec<u8>,
}

/// The parameters of a normalisation.
#[verifier::ext_equal]
pub ghost struct NormView {
    pub gamma: Seq<u32>,
    pub beta: Seq<u32>,
    pub mean: Seq<u32>,
    pub var: Seq<u32>,
}

/// The parameters of a layer.
#[verifier::ext_equal]
pub ghost struct LayerView {
    pub dim_in: int,
    pub dim_out: int,
    pub weight: Seq<u32>,
    pub bias: Seq<u32>,
    pub bn: Option<NormView>,
}

impl View for BatchNorm1d {
    type V = NormView;

    open spec fn view(&self) -> NormView {
        NormView { gamma: self.gamma@, beta: self.beta@, mean: self.mean@, var: self.var@ }
    }
}

impl View for Linear {
    type V = LayerView;

    open spec fn view(&self) -> LayerView {
        LayerView {
            dim_in: self.dim_in as int,
            dim_out: self.dim_out as int,
            weight: self.weight@,
            bias: self.bias@,
            bn: None,
        }
    }
}

impl View for Layer {
    type V = LayerView;

    open spec fn view(&self) -> LayerView {
        LayerView {
            dim_in: self.linear.dim_in as int,
            dim_out: self.linear.dim_out as int,
            weight: self.linear.weight@,
            bias: self.linear.bias@,
            bn: match self.bn {
                Some(b) => Some(b@),
                None => None,
            },
        }
    }
}

/// The parameters of a run of layers.
pub open spec fn layer_views(layers: Seq<Layer>) -> Seq<LayerView> {
    layers.map_values(|l: Layer| l@)
}

/// The widths that are put side by side are those of the first layer and of the
/// last, whatever stands between.
pub proof fn law_ends_are_put_side_by_side(first: usize, middle: Seq<usize>, last: usize)
    ensures
        concat_width(seq![first] + middle + seq![last]) == first + last,
        concat_width(seq![first]) == 2 * first,
{
}

} // verus!
