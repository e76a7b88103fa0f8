//! Which feature matrices the network takes, the width of its logits, and the
//! steps that lead to them.

use vstd::prelude::*;

use crate::error::{pipeline_text, ClassifierError};
use crate::model::layers::{
    dense_width, law_layers_fit_one_another, reports, run_width, tnet_width, two_numbers,
    width_through,
};
use crate::model::pointnet::{concat_width, Layer, PointNetClassifier, TNet};
use crate::model::weights::{
    chain_slots, decoder_slots, encoder_slots, feature_slots, input_slots, matches_slot,
    model_slots, projection_slot, tnet_slots, well_formed,
};
use crate::text::{concat5, decimal_text};

verus! {

/// What the optional net makes of the width.
pub open spec fn optional_tnet_width(t: Option<TNet>, width: nat) -> Result<nat, Seq<char>> {
    match t {
        None => Ok(width),
        Some(t) => tnet_width(t, width),
    }
}

/// The local and the global feature width of a matrix with `cols` columns, or
/// the message of the failure.
pub open spec fn feature_widths(m: PointNetClassifier, cols: nat) -> Result<
    (nat, nat),
    Seq<char>,
> {
    if cols != m.config.n_features_in {
        Err(
            two_numbers(
                "PointNet::forward: input cols ("@,
                cols,
                ") != n_features_in ("@,
                m.config.n_features_in as nat,
                ")"@,
            ),
        )
    } else {
        match optional_tnet_width(m.input_tnet, 3) {
            Err(e) => Err(e),
            Ok(_) => if m.encoder_layers@.len() == 0 {
                Err("PointNet: encoder_layers is empty"@)
            } else {
                match run_width(m.encoder_layers@, 0, 1, cols, false) {
                    Err(e) => Err(e),
                    Ok(local) => match optional_tnet_width(m.feature_tnet, local) {
                        Err(e) => Err(e),
                        Ok(_) => match run_width(
                            m.encoder_layers@,
                            1,
                            m.encoder_layers@.len() as int,
                            local,
                            false,
                        ) {
                            Err(e) => Err(e),
                            Ok(global) => Ok((local, global)),
                        },
                    },
                }
            },
        }
    }
}

/// The width of the logits of a matrix with `cols` columns, or the message of
/// the failure.
pub open spec fn logit_width(m: PointNetClassifier, cols: nat) -> Result<nat, Seq<char>> {
    match feature_widths(m, cols) {
        Err(e) => Err(e),
        Ok((local, global)) => match run_width(
            m.decoder_layers@,
            0,
            m.decoder_layers@.len() as int,
            local + global,
            false,
        ) {
            Err(e) => Err(e),
            Ok(w) => dense_width(m.class_proj, w, false),
        },
    }
}

/// The transform nets have their six layers, and no width or sum of two is
/// beyond what a matrix in memory can have.
pub open spec fn widths_in_range(m: PointNetClassifier) -> bool {
    &&& m.input_tnet matches Some(t) ==> t.layers@.len() == 6 && t.k * t.k <= usize::MAX
    &&& m.feature_tnet matches Some(t) ==> t.layers@.len() == 6 && t.k * t.k <= usize::MAX
    &&& forall|i: int|
        0 <= i < m.encoder_layers@.len() ==> (#[trigger] m.encoder_layers@[i]).linear.dim_out
            <= usize::MAX / 2
}

fn check_tnet(t: &Option<TNet>, width: usize) -> (r: Result<usize, ClassifierError>)
    requires
        t matches Some(t) ==> t.layers@.len() == 6 && t.k * t.k <= usize::MAX,
    ensures
        reports(r, optional_tnet_width(*t, width as nat)),
{
    match t {
        None => Ok(width),
        Some(t) => t.check_width(width),
    }
}

proof fn lemma_run_bounded(layers: Seq<Layer>, to: int, width: nat, bound: nat)
    requires
        0 <= to <= layers.len(),
        width <= bound,
        forall|i: int| 0 <= i < layers.len() ==> (#[trigger] layers[i]).linear.dim_out <= bound,
    ensures
        run_width(layers, 1, to, width, false) matches Ok(w) ==> w <= bound,
    decreases to,
{
    if to > 1 {
        lemma_run_bounded(layers, to - 1, width, bound);
        assert(layers[to - 1].linear.dim_out <= bound);
    }
}

impl PointNetClassifier {
    /// The width of the logits that the network computes for a matrix with
    /// `cols` columns. Where it computes none, the error is the one of the
    /// first part that the matrix does not fit.
    pub fn logit_width_for(&self, cols: usize) -> (r: Result<usize, ClassifierError>)
        requires
            widths_in_range(*self),
        ensures
            reports(r, logit_width(*self, cols as nat)),
    {
        if cols != self.config.n_features_in {
            let a = decimal_text(cols as u64);
            let b = decimal_text(self.config.n_features_in as u64);
            return Err(
                ClassifierError::Pipeline(
                    concat5(
                        "PointNet::forward: input cols (",
                        a.as_str(),
                        ") != n_features_in (",
                        b.as_str(),
                        ")",
                    ),
                ),
            );
        }
        if let Err(e) = check_tnet(&self.input_tnet, 3) {
            return Err(e);
        }
        let n: usize = self.encoder_layers.len();
        if n == 0 {
            return Err(ClassifierError::Pipeline("PointNet: encoder_layers is empty".to_owned()));
        }
        let local: usize = match width_through(&self.encoder_layers, 0, 1, cols, false) {
            Ok(w) => w,
            Err(e) => {
                return Err(e);
            },
        };
        proof {
            reveal_with_fuel(run_width, 2);
            assert(self.encoder_layers@[0].linear.dim_out <= usize::MAX / 2);
            assert(local <= usize::MAX / 2);
            lemma_run_bounded(
                self.encoder_layers@,
                n as int,
                local as nat,
                (usize::MAX / 2) as nat,
            );
        }
        if let Err(e) = check_tnet(&self.feature_tnet, local) {
            return Err(e);
        }
        let global: usize = match width_through(&self.encoder_layers, 1, n, local, false) {
            Ok(w) => w,
            Err(e) => {
                return Err(e);
            },
        };
        let w: usize = match width_through(
            &self.decoder_layers,
            0,
            self.decoder_layers.len(),
            local + global,
            false,
        ) {
            Ok(w) => w,
            Err(e) => {
                return Err(e);
            },
        };
        self.class_proj.width_after(w, false)
    }
}

// ── Steps ───────────────────────────────────────────────────────────────────

/// A step of the forward pass. It starts from the feature matrix, and keeps
/// the local features aside until they are joined.
#[derive(Debug, Clone, Copy, PartialEq, Eq, Structural)]
pub enum Step {
    /// Transform the first three columns by the input transform net.
    TransformInput,
    /// Apply the first encoder layer: its result is the local features.
    EncodeLocal,
    /// Transform the local features by the feature transform net.
    TransformLocal,
    /// Apply this encoder layer.
    Encode(usize),
    /// Put the maximum of every column beside the local features of every row.
    Join,
    /// Apply this decoder layer.
    Decode(usize),
    /// Apply the class projection: its result is the logits.
    Project,
}

/// Encoder layers from 1 up to `n`.
pub open spec fn encoding(n: int) -> Seq<Step>
    decreases n,
{
    if n <= 1 {
        Seq::empty()
    } else {
        encoding(n - 1).push(Step::Encode((n - 1) as usize))
    }
}

/// Decoder layers up to `n`.
pub open spec fn decoding(n: int) -> Seq<Step>
    decreases n,
{
    if n <= 0 {
        Seq::empty()
    } else {
        decoding(n - 1).push(Step::Decode((n - 1) as usize))
    }
}

/// The steps up to the local features.
pub open spec fn local_steps(m: PointNetClassifier) -> Seq<Step> {
    (if m.input_tnet is Some {
        seq![Step::TransformInput]
    } else {
        Seq::empty()
    }).push(Step::EncodeLocal) + (if m.feature_tnet is Some {
        seq![Step::TransformLocal]
    } else {
        Seq::empty()
    })
}

/// The steps of the forward pass.
pub open spec fn forward_steps(m: PointNetClassifier) -> Seq<Step> {
    ((local_steps(m) + encoding(m.encoder_layers@.len() as int)).push(Step::Join) + decoding(
        m.decoder_layers@.len() as int,
    )).push(Step::Project)
}

impl PointNetClassifier {
    /// The forward pass on a matrix with `cols` columns, step by step. It fails
    /// where the matrix or one of the layers does not fit.
    pub fn forward(&self, cols: usize) -> (r: Result<Vec<Step>, ClassifierError>)
        requires
            widths_in_range(*self),
        ensures
            match r {
                Ok(steps) => logit_width(*self, cols as nat) is Ok && steps@ == forward_steps(*self),
                Err(e) => logit_width(*self, cols as nat) matches Err(m) && e.text()
                    == pipeline_text(m),
            },
    {
        if let Err(e) = self.logit_width_for(cols) {
            return Err(e);
        }
        let mut steps: Vec<Step> = Vec::new();
        if self.input_tnet.is_some() {
            steps.push(Step::TransformInput);
        }
        steps.push(Step::EncodeLocal);
        if self.feature_tnet.is_some() {
            steps.push(Step::TransformLocal);
        }
        assert(steps@ =~= local_steps(*self));
        let n: usize = self.encoder_layers.len();
        let mut i: usize = 1;
        while i < n
            invariant
                1 <= i,
                i <= n || n == 0,
                n == self.encoder_layers@.len(),
                steps@ =~= local_steps(*self) + encoding(i as int),
            decreases n - i,
        {
            steps.push(Step::Encode(i));
            i = i + 1;
        }
        assert(encoding(i as int) =~= encoding(n as int));
        steps.push(Step::Join);
        let ghost joined = steps@;
        let d: usize = self.decoder_layers.len();
        let mut j: usize = 0;
        while j < d
            invariant
                j <= d,
                steps@ =~= joined + decoding(j as int),
            decreases d - j,
        {
            steps.push(Step::Decode(j));
            j = j + 1;
        }
        steps.push(Step::Project);
        Ok(steps)
    }
}

// ── Whole models ────────────────────────────────────────────────────────────

/// The width before layer `i` of a chain.
pub open spec fn chain_width(dim_in: usize, dims: Seq<usize>, i: int) -> nat {
    if i <= 0 {
        dim_in as nat
    } else {
        dims[i - 1] as nat
    }
}

proof fn lemma_chain(
    layers: Seq<Layer>,
    dim_in: usize,
    dims: Seq<usize>,
    bn: bool,
    from: int,
    to: int,
)
    requires
        layers.len() == dims.len(),
        0 <= from <= to <= dims.len(),
        forall|i: int|
            0 <= i < dims.len() ==> matches_slot(
                (#[trigger] layers[i])@,
                chain_slots(dim_in, dims, bn)[i],
            ),
    ensures
        run_width(layers, from, to, chain_width(dim_in, dims, from), false) == Ok::<nat, Seq<char>>(
            chain_width(dim_in, dims, to),
        ),
    decreases to - from,
{
    if from < to {
        lemma_chain(layers, dim_in, dims, bn, from, to - 1);
        let l = layers[to - 1];
        assert(matches_slot(l@, chain_slots(dim_in, dims, bn)[to - 1]));
        assert(l.linear.dim_in == chain_width(dim_in, dims, to - 1));
        assert(l.linear.dim_out == dims[to - 1]);
        assert(l.bn matches Some(b) ==> b@.gamma.len() == dims[to - 1]);
    }
}

proof fn lemma_tnet(t: TNet, bn: bool)
    requires
        t.k == 3 || t.k == 64,
        t.layers@.len() == 6,
        forall|i: int|
            0 <= i < 6 ==> matches_slot((#[trigger] t.layers@[i])@, tnet_slots(t.k, bn)[i]),
    ensures
        tnet_width(t, t.k as nat) == Ok::<nat, Seq<char>>(t.k as nat),
{
    let l = t.layers@;
    assert(forall|i: int| 0 <= i < 6 ==> ((#[trigger] l[i]).bn matches Some(b) ==> b@.gamma.len()
        == l[i].linear.dim_out));
    assert(l[0].linear.dim_in == t.k && l[0].linear.dim_out == 64);
    assert(l[1].linear.dim_in == 64 && l[1].linear.dim_out == 128);
    assert(l[2].linear.dim_in == 128 && l[2].linear.dim_out == 1024);
    assert(l[3].linear.dim_in == 1024 && l[3].linear.dim_out == 512);
    assert(l[4].linear.dim_in == 512 && l[4].linear.dim_out == 256);
    assert(l[5].linear.dim_in == 256);
    assert(run_width(l, 0, 1, t.k as nat, false) == Ok::<nat, Seq<char>>(64)) by {
        reveal_with_fuel(run_width, 2);
    }
    assert(run_width(l, 0, 2, t.k as nat, false) == Ok::<nat, Seq<char>>(128));
    assert(run_width(l, 0, 3, t.k as nat, false) == Ok::<nat, Seq<char>>(1024));
    assert(run_width(l, 3, 4, 1024, true) == Ok::<nat, Seq<char>>(512)) by {
        reveal_with_fuel(run_width, 2);
    }
    assert(run_width(l, 3, 5, 1024, true) == Ok::<nat, Seq<char>>(256));
    assert(l[5].linear.dim_out == t.k * t.k);
}

/// A model whose layers have the shapes that its configuration asks for takes
/// every matrix with as many columns as it has input features, and gives one
/// logit per class. Its feature transform is made for a local width of 64.
pub proof fn law_model_takes_its_features(m: PointNetClassifier)
    requires
        well_formed(m),
        m.config.encoder_dims@.len() > 0,
        m.config.use_feature_tnet ==> m.config.encoder_dims@[0] == 64,
    ensures
        logit_width(m, m.config.n_features_in as nat) == Ok::<nat, Seq<char>>(
            m.config.n_classes as nat,
        ),
{
    let h = m.header();
    let slots = model_slots(h);
    let bn = h.use_batch_norm;
    let a = input_slots(h).len() as int;
    let b = a + feature_slots(h).len();
    let e = b + h.encoder_dims.len();
    let d = e + h.decoder_dims.len();
    let all = m.layers();
    assert(slots.len() == d + 1);
    if let Some(t) = m.input_tnet {
        assert forall|i: int| 0 <= i < 6 implies matches_slot(
            (#[trigger] t.layers@[i])@,
            tnet_slots(t.k, bn)[i],
        ) by {
            assert(all[i] == t.layers@[i]@);
            assert(slots[i] == tnet_slots(3, bn)[i]);
            assert(matches_slot(all[i], slots[i]));
        }
        lemma_tnet(t, bn);
    }
    if let Some(t) = m.feature_tnet {
        assert forall|i: int| 0 <= i < 6 implies matches_slot(
            (#[trigger] t.layers@[i])@,
            tnet_slots(t.k, bn)[i],
        ) by {
            assert(all[a + i] == t.layers@[i]@);
            assert(slots[a + i] == tnet_slots(64, bn)[i]);
            assert(matches_slot(all[a + i], slots[a + i]));
        }
        lemma_tnet(t, bn);
    }
    let enc = m.encoder_layers@;
    let dims = h.encoder_dims;
    assert forall|i: int| 0 <= i < dims.len() implies matches_slot(
        (#[trigger] enc[i])@,
        chain_slots(m.config.n_features_in, dims, bn)[i],
    ) by {
        assert(all[b + i] == enc[i]@);
        assert(slots[b + i] == encoder_slots(h)[i]);
        assert(matches_slot(all[b + i], slots[b + i]));
    }
    lemma_chain(enc, m.config.n_features_in, dims, bn, 0, 1);
    lemma_chain(enc, m.config.n_features_in, dims, bn, 1, dims.len() as int);
    let width = concat_width(dims) as usize;
    let dec = m.decoder_layers@;
    let ddims = h.decoder_dims;
    assert forall|i: int| 0 <= i < ddims.len() implies matches_slot(
        (#[trigger] dec[i])@,
        chain_slots(width, ddims, bn)[i],
    ) by {
        assert(all[e + i] == dec[i]@);
        assert(slots[e + i] == decoder_slots(h)[i]);
        assert(matches_slot(all[e + i], slots[e + i]));
    }
    lemma_chain(dec, width, ddims, bn, 0, ddims.len() as int);
    assert(all[d] == m.class_proj@);
    assert(slots[d] == projection_slot(h));
    assert(matches_slot(all[d], slots[d]));
    assert(concat_width(dims) == dims[0] + dims.last());
    assert(width == dims[0] + dims.last());
}

/// A model gives logits for rows of a width exactly where it takes that many
/// features, its transform nets fit, its encoder layers fit one another, its
/// decoder takes the local features beside the global one, and its class
/// projection takes what the decoder gives. There is a logit for each output of
/// the projection.
pub proof fn law_parts_of_a_model_fit(m: PointNetClassifier, cols: nat)
    ensures
        ({
            let e = m.encoder_layers@;
            let d = m.decoder_layers@;
            let joint = (e[0].linear.dim_out + e[e.len() - 1].linear.dim_out) as nat;
            &&& logit_width(m, cols) is Ok <==> {
                &&& cols == m.config.n_features_in
                &&& m.input_tnet is Some ==> tnet_width(m.input_tnet.unwrap(), 3) is Ok
                &&& e.len() > 0
                &&& run_width(e, 0, e.len() as int, cols, false) is Ok
                &&& m.feature_tnet is Some ==> tnet_width(
                    m.feature_tnet.unwrap(),
                    e[0].linear.dim_out as nat,
                ) is Ok
                &&& run_width(d, 0, d.len() as int, joint, false) is Ok
                &&& m.class_proj.dim_in == if d.len() > 0 {
                    d[d.len() - 1].linear.dim_out as nat
                } else {
                    joint
                }
            }
            &&& logit_width(m, cols) is Ok ==> logit_width(m, cols)->Ok_0 == m.class_proj.dim_out
        }),
{
    let e = m.encoder_layers@;
    let d = m.decoder_layers@;
    if e.len() > 0 {
        let n = e.len() as int;
        let joint = (e[0].linear.dim_out + e[n - 1].linear.dim_out) as nat;
        law_layers_fit_one_another(e, 0, 1, cols, false);
        law_layers_fit_one_another(e, 1, n, e[0].linear.dim_out as nat, false);
        law_layers_fit_one_another(e, 0, n, cols, false);
        law_layers_fit_one_another(d, 0, d.len() as int, joint, false);
        assert(e[0].bn == e[0].bn);
        if n > 1 {
            assert(e[1].linear.dim_in == e[1].linear.dim_in);
        }
    }
}

/// A forward pass goes through the input transform, the first encoder layer, the
/// feature transform, the further encoder layers in order, the join, the decoder
/// layers in order, and the projection; transforms that the model lacks are left
/// out.
pub proof fn law_steps_go_through_the_layers(m: PointNetClassifier)
    requires
        0 < m.encoder_layers@.len() <= usize::MAX,
        m.decoder_layers@.len() <= usize::MAX,
    ensures
        ({
            let s = forward_steps(m);
            let e = m.encoder_layers@.len() as int;
            let d = m.decoder_layers@.len() as int;
            let a: int = if m.input_tnet is Some {
                1
            } else {
                0
            };
            let b: int = a + 1 + if m.feature_tnet is Some {
                1int
            } else {
                0
            };
            &&& s.len() == b + (e - 1) + 1 + d + 1
            &&& m.input_tnet is Some ==> s[0] == Step::TransformInput
            &&& s[a] == Step::EncodeLocal
            &&& m.feature_tnet is Some ==> s[a + 1] == Step::TransformLocal
            &&& forall|k: int|
                b <= k < b + e - 1 ==> #[trigger] s[k] == Step::Encode((k - b + 1) as usize)
            &&& s[b + e - 1] == Step::Join
            &&& forall|k: int|
                b + e <= k < b + e + d ==> #[trigger] s[k] == Step::Decode((k - b - e) as usize)
            &&& s[b + e + d] == Step::Project
        }),
{
    let e = m.encoder_layers@.len() as int;
    let d = m.decoder_layers@.len() as int;
    lemma_encoding(e);
    lemma_decoding(d);
    let first = local_steps(m);
    let s = forward_steps(m);
    let b = first.len() as int;
    assert forall|k: int| b <= k < b + e - 1 implies #[trigger] s[k] == Step::Encode(
        (k - b + 1) as usize,
    ) by {
        assert(encoding(e)[k - b] == Step::Encode((k - b + 1) as usize));
    }
    assert forall|k: int| b + e <= k < b + e + d implies #[trigger] s[k] == Step::Decode(
        (k - b - e) as usize,
    ) by {
        assert(decoding(d)[k - b - e] == Step::Decode((k - b - e) as usize));
    }
}

proof fn lemma_encoding(n: int)
    requires
        1 <= n,
    ensures
        encoding(n).len() == n - 1,
        forall|i: int| 0 <= i < n - 1 ==> #[trigger] encoding(n)[i] == Step::Encode((i + 1) as usize),
    decreases n,
{
    if n > 1 {
        lemma_encoding(n - 1);
    }
}

proof fn lemma_decoding(n: int)
    requires
        0 <= n,
    ensures
        decoding(n).len() == n,
        forall|i: int| 0 <= i < n ==> #[trigger] decoding(n)[i] == Step::Decode(i as usize),
    decreases n,
{
    if n > 0 {
        lemma_decoding(n - 1);
    }
}

} // verus!
