//! The `fix-label-map` sub-command: corrects a model's label map without
//! retraining.

use vstd::prelude::*;

use crate::cli::args::{
    all_texts, no_single, no_single_model, parsed, reads, reads_all, scan, text_set, text_value,
    texts_set, Command, Flag, Kind, NumberModel, Settings,
};
use crate::cli::preprocess_cmd::same_text;
use crate::error::{pipeline_text, ClassifierError};
use crate::ieee::Real64;
use crate::codec::stands_at;
use crate::model::pointnet::PointNetClassifier;
use crate::model::weights::{
    header_at, header_end, holds_model, law_model_round_trip, layers_at, model_slots, well_formed,
    HeaderView,
};
use crate::text::{concat5, decimal, decimal_text, texts};

verus! {

/// The flags of the command.
pub open spec fn fix_label_map_flags() -> Seq<Flag> {
    seq![
        Flag { name: "--model", kind: Kind::Text },
        Flag { name: "--data-dir", kind: Kind::Text },
        Flag { name: "--output", kind: Kind::Text },
    ]
}

fn fix_label_map_table() -> (r: Vec<Flag>)
    ensures
        r@ == fix_label_map_flags(),
{
    let r: Vec<Flag> = vec![
        Flag { name: "--model", kind: Kind::Text },
        Flag { name: "--data-dir", kind: Kind::Text },
        Flag { name: "--output", kind: Kind::Text },
    ];
    assert(r@ =~= fix_label_map_flags());
    r
}

/// What the command line asks for.
#[derive(Debug)]
pub struct FixLabelMapConfig {
    pub model: String,
    pub data_dirs: Vec<String>,
    pub output: Option<String>,
}

/// The fields that the flags set.
pub open spec fn is_fix_configured(c: FixLabelMapConfig, s: Settings) -> bool {
    &&& text_value(s, "--model"@) == Some(c.model@)
    &&& texts(c.data_dirs@) == all_texts(s, "--data-dir"@)
    &&& same_text(c.output, text_value(s, "--output"@))
}

/// What is wrong with the settings: no data directory, or no model.
pub open spec fn fix_fault(s: Settings) -> Option<Seq<char>> {
    if all_texts(s, "--data-dir"@).len() == 0 {
        Some("fix-label-map: at least one --data-dir is required"@)
    } else if text_value(s, "--model"@) is None {
        Some("fix-label-map: --model is required"@)
    } else {
        None
    }
}

/// What the command makes of its settings.
pub open spec fn fix_outcome(
    r: Result<FixLabelMapConfig, ClassifierError>,
    p: Result<Settings, Seq<char>>,
) -> bool {
    match r {
        Ok(c) => p matches Ok(s) && is_fix_configured(c, s) && fix_fault(s) is None,
        Err(e) => match p {
            Err(m) => e.text() == pipeline_text(m),
            Ok(s) => fix_fault(s) matches Some(m) && e.text() == pipeline_text(m),
        },
    }
}

fn no_number(s: &str) -> (r: Option<Real64>)
    ensures
        r is None,
{
    None
}

pub open spec fn no_number_model() -> NumberModel {
    |s: Seq<char>| None
}

/// Reads the arguments of the command.
pub fn parse_args(args: &Vec<String>) -> (r: Result<FixLabelMapConfig, ClassifierError>)
    ensures
        fix_outcome(
            r,
            parsed(
                Command::FixLabelMap,
                fix_label_map_flags(),
                no_number_model(),
                no_single_model(),
                texts(args@),
            ),
        ),
{
    let table = fix_label_map_table();
    assert(reads(no_single, no_single_model()));
    assert(reads_all(no_single));
    assert(reads(no_number, no_number_model()));
    assert(reads_all(no_number));
    let s = match scan(Command::FixLabelMap, &table, args, no_number, no_single) {
        Ok(s) => s,
        Err(e) => {
            return Err(e);
        },
    };
    let data_dirs = texts_set(&s, "--data-dir");
    assert(texts(data_dirs@).len() == data_dirs@.len());
    if data_dirs.len() == 0 {
        return Err(
            ClassifierError::Pipeline(
                "fix-label-map: at least one --data-dir is required".to_owned(),
            ),
        );
    }
    match text_set(&s, "--model") {
        Some(model) => Ok(
            FixLabelMapConfig { model, data_dirs, output: text_set(&s, "--output") },
        ),
        None => Err(ClassifierError::Pipeline("fix-label-map: --model is required".to_owned())),
    }
}

// ── The decision ────────────────────────────────────────────────────────────

/// What is to be done with the model.
#[derive(Debug)]
pub enum LabelMapFix {
    /// The map is right already and nothing is to be written.
    Nothing,
    /// Write the model with this map to this path.
    Write { label_map: Vec<u8>, path: String },
}

/// The message on data of another class count.
pub open spec fn count_message(model_n: nat, data_n: nat) -> Seq<char> {
    "fix-label-map: model has "@ + decimal(model_n) + " classes but the data directory declares "@
        + decimal(data_n)
        + " classes — this is not the data the model was trained on. Pass the ORIGINAL --data-dir(s) used to train this model."@
}

fn same_bytes(a: &Vec<u8>, b: &Vec<u8>) -> (r: bool)
    ensures
        r == (a@ == b@),
{
    if a.len() != b.len() {
        return false;
    }
    let mut i: usize = 0;
    while i < a.len()
        invariant
            i <= a@.len(),
            a@.len() == b@.len(),
            forall|k: int| 0 <= k < i ==> a@[k] == b@[k],
        decreases a@.len() - i,
    {
        if a[i] != b[i] {
            return false;
        }
        i = i + 1;
    }
    assert(a@ =~= b@);
    true
}

/// Decides on the model's label map, given the map that its training data
/// declares, or why they declare none. A right map is written only where
/// another output is asked for.
pub fn plan_fix(
    cfg: FixLabelMapConfig,
    model_n: usize,
    data_n: usize,
    current: &Vec<u8>,
    derived: Result<Vec<u8>, ClassifierError>,
) -> (r: Result<LabelMapFix, ClassifierError>)
    ensures
        match r {
            Err(e) => if model_n != data_n {
                e.text() == pipeline_text(count_message(model_n as nat, data_n as nat))
            } else {
                derived == Err::<Vec<u8>, ClassifierError>(e)
            },
            Ok(LabelMapFix::Nothing) => {
                &&& model_n == data_n
                &&& derived matches Ok(d) && current@ == d@
                &&& cfg.output is None
            },
            Ok(LabelMapFix::Write { label_map, path }) => {
                &&& model_n == data_n
                &&& derived matches Ok(d) && label_map@ == d@ && (current@ != d@ || cfg.output is Some)
                &&& path@ == match cfg.output {
                    Some(o) => o@,
                    None => cfg.model@,
                }
            },
        },
{
    if model_n != data_n {
        return Err(
            ClassifierError::Pipeline(
                concat5(
                    "fix-label-map: model has ",
                    decimal_text(model_n as u64).as_str(),
                    " classes but the data directory declares ",
                    decimal_text(data_n as u64).as_str(),
                    " classes — this is not the data the model was trained on. Pass the ORIGINAL --data-dir(s) used to train this model.",
                ),
            ),
        );
    }
    let derived: Vec<u8> = match derived {
        Ok(d) => d,
        Err(e) => {
            return Err(e);
        },
    };
    let same: bool = same_bytes(current, &derived);
    match cfg.output {
        Some(path) => Ok(LabelMapFix::Write { label_map: derived, path }),
        None => {
            if same {
                Ok(LabelMapFix::Nothing)
            } else {
                Ok(LabelMapFix::Write { label_map: derived, path: cfg.model })
            }
        },
    }
}

/// Writing a model with another label map of the same length changes nothing
/// else: what is read back has the same configuration and the same tensors.
pub proof fn law_patch_keeps_weights(
    model: PointNetClassifier,
    patched: PointNetClassifier,
    b: Seq<u8>,
)
    requires
        well_formed(model),
        patched.config == model.config,
        patched.input_tnet == model.input_tnet,
        patched.feature_tnet == model.feature_tnet,
        patched.encoder_layers == model.encoder_layers,
        patched.decoder_layers == model.decoder_layers,
        patched.class_proj == model.class_proj,
        patched.label_map@.len() == model.label_map@.len(),
        stands_at(b, 0, patched.bytes()),
    ensures
        holds_model(b),
        header_at(b) == (HeaderView { label_map: patched.label_map@, ..model.header() }),
        layers_at(b, header_end(b), model_slots(header_at(b))) == model.layers(),
{
    assert(patched.layers() == model.layers());
    let slots = model_slots(patched.header());
    assert(slots == model_slots(model.header()));
    assert(well_formed(patched));
    law_model_round_trip(patched, b);
}

/// A correction is accepted exactly with a data directory and a model.
pub proof fn law_accepted_corrections(r: Result<FixLabelMapConfig, ClassifierError>, s: Settings)
    requires
        fix_outcome(r, Ok::<Settings, Seq<char>>(s)),
    ensures
        r is Ok <==> all_texts(s, "--data-dir"@).len() > 0 && text_value(s, "--model"@) is Some,
        r matches Ok(c) ==> c.data_dirs@.len() > 0,
{
    if r is Ok {
        assert(texts(r->Ok_0.data_dirs@).len() == r->Ok_0.data_dirs@.len());
    }
}

} // verus!
