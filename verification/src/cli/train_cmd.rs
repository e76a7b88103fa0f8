//! The `train` sub-command.

use std::collections::HashSet;

use vstd::prelude::*;

use crate::cli::args::{
    all_texts, count_or, count_set, count_set_or, count_value, device_set, device_value, is_on,
    is_positive_finite, last_value, law_flags_not_set, number_or, number_set, number_set_or,
    number_value, parsed, positive_finite, reads, reads_all, scan, seed_set, settings, single_set,
    single_value, switched_on, text_set, text_value, texts_set, unset, Command, DevicePreference,
    Flag, Kind, NumberModel, Setting, Settings, SingleModel,
};
use crate::cli::preprocess_cmd::same_text;
use crate::cli::split_dataset_cmd::{seed_or_42, DEFAULT_VAL_SPLIT};
use crate::error::{pipeline_text, ClassifierError};
use crate::ieee::{ONE, Real32, Real64};
use crate::json::{json_number_array, read_number_array};
use crate::paths::{directory_of, directory_or, join_path, joined_path};
use crate::text::{concat2, str_eq, texts};

verus! {

/// The smaller of the two, where both are at least 1.
pub open spec fn effective_batch(batch_size: int, forward_batch_size: int) -> int {
    let a = if batch_size < 1 {
        1
    } else {
        batch_size
    };
    let b = if forward_batch_size < 1 {
        1
    } else {
        forward_batch_size
    };
    if a < b {
        a
    } else {
        b
    }
}

/// The forward-batch size that actually reaches a single batched forward pass,
/// given the raw command-line values: no micro-batch can exceed the smaller of
/// the two. Both inputs are floored at 1.
pub fn effective_forward_batch_size(batch_size: usize, forward_batch_size: usize) -> (r: usize)
    ensures
        r == effective_batch(batch_size as int, forward_batch_size as int),
{
    let a: usize = if batch_size < 1 {
        1
    } else {
        batch_size
    };
    let b: usize = if forward_batch_size < 1 {
        1
    } else {
        forward_batch_size
    };
    if a < b {
        a
    } else {
        b
    }
}

// ── The command line ────────────────────────────────────────────────────────

/// The pattern of the double-precision `0.001`.
pub const DEFAULT_LEARNING_RATE: u64 = 0x3F50_624D_D2F1_A9FC;

/// The pattern of the single-precision `0.0001`.
pub const DEFAULT_WEIGHT_DECAY: u32 = 0x38D1_B717;

/// The pattern of the double-precision `0.999`.
pub const DEFAULT_CLASS_WEIGHT_BETA: u64 = 0x3FEF_F7CE_D916_872B;

/// The pattern of the single-precision `1.0`.
pub const ONE_SINGLE: u32 = 0x3F80_0000;

/// The flags of the command.
pub open spec fn train_flags() -> Seq<Flag> {
    seq![
        Flag { name: "--data-dir", kind: Kind::Text },
        Flag { name: "--val-data-dir", kind: Kind::Text },
        Flag { name: "--output-model", kind: Kind::Text },
        Flag { name: "--n-classes", kind: Kind::Count },
        Flag { name: "--epochs", kind: Kind::Count },
        Flag { name: "--batch-size", kind: Kind::Count },
        Flag { name: "--forward-batch-size", kind: Kind::Count },
        Flag { name: "--learning-rate", kind: Kind::Number },
        Flag { name: "--weight-decay", kind: Kind::Single },
        Flag { name: "--val-split", kind: Kind::Number },
        Flag { name: "--val-tile-blocks", kind: Kind::Text },
        Flag { name: "--seed", kind: Kind::Seed },
        Flag { name: "--use-feature-tnet", kind: Kind::Bare },
        Flag { name: "--no-class-weights", kind: Kind::Bare },
        Flag { name: "--class-weight-beta", kind: Kind::Number },
        Flag { name: "--checkpoint-dir", kind: Kind::Text },
        Flag { name: "--checkpoint-every", kind: Kind::Count },
        Flag { name: "--keep-best-n", kind: Kind::Count },
        Flag { name: "--swa", kind: Kind::Bare },
        Flag { name: "--metrics-out", kind: Kind::Text },
        Flag { name: "--threads", kind: Kind::Count },
        Flag { name: "--device", kind: Kind::Device },
        Flag { name: "--early-stopping-patience", kind: Kind::Count },
        Flag { name: "--warmup-steps", kind: Kind::Count },
        Flag { name: "--grad-clip-norm", kind: Kind::Single },
        Flag { name: "--cache-blocks-max-mb", kind: Kind::Count },
        Flag { name: "--halo-loss-weight", kind: Kind::Single },
    ]
}

fn train_table() -> (r: Vec<Flag>)
    ensures
        r@ == train_flags(),
{
    let r: Vec<Flag> = vec![
        Flag { name: "--data-dir", kind: Kind::Text },
        Flag { name: "--val-data-dir", kind: Kind::Text },
        Flag { name: "--output-model", kind: Kind::Text },
        Flag { name: "--n-classes", kind: Kind::Count },
        Flag { name: "--epochs", kind: Kind::Count },
        Flag { name: "--batch-size", kind: Kind::Count },
        Flag { name: "--forward-batch-size", kind: Kind::Count },
        Flag { name: "--learning-rate", kind: Kind::Number },
        Flag { name: "--weight-decay", kind: Kind::Single },
        Flag { name: "--val-split", kind: Kind::Number },
        Flag { name: "--val-tile-blocks", kind: Kind::Text },
        Flag { name: "--seed", kind: Kind::Seed },
        Flag { name: "--use-feature-tnet", kind: Kind::Bare },
        Flag { name: "--no-class-weights", kind: Kind::Bare },
        Flag { name: "--class-weight-beta", kind: Kind::Number },
        Flag { name: "--checkpoint-dir", kind: Kind::Text },
        Flag { name: "--checkpoint-every", kind: Kind::Count },
        Flag { name: "--keep-best-n", kind: Kind::Count },
        Flag { name: "--swa", kind: Kind::Bare },
        Flag { name: "--metrics-out", kind: Kind::Text },
        Flag { name: "--threads", kind: Kind::Count },
        Flag { name: "--device", kind: Kind::Device },
        Flag { name: "--early-stopping-patience", kind: Kind::Count },
        Flag { name: "--warmup-steps", kind: Kind::Count },
        Flag { name: "--grad-clip-norm", kind: Kind::Single },
        Flag { name: "--cache-blocks-max-mb", kind: Kind::Count },
        Flag { name: "--halo-loss-weight", kind: Kind::Single },
    ];
    assert(r@ =~= train_flags());
    r
}

/// What the command line asks for.
#[derive(Debug)]
pub struct TrainArgs {
    pub data_dirs: Vec<String>,
    pub val_data_dirs: Vec<String>,
    pub output_model: Option<String>,
    pub n_classes: usize,
    pub epochs: usize,
    pub batch_size: usize,
    pub forward_batch_size: usize,
    pub learning_rate: Real64,
    pub weight_decay: Real32,
    pub val_split: Real64,
    /// Whether the validation fraction was given.
    pub val_split_explicit: bool,
    /// JSON file of explicit validation block IDs.
    pub val_tile_blocks: Option<String>,
    pub seed: u64,
    pub use_feature_tnet: bool,
    pub use_class_weights: bool,
    pub class_weight_beta: Real64,
    pub checkpoint_dir: Option<String>,
    pub checkpoint_every: usize,
    pub keep_best_n: usize,
    pub swa: bool,
    /// Per-epoch metrics file; derived from the first data directory where
    /// there is none.
    pub metrics_out: Option<String>,
    pub threads: Option<usize>,
    pub device: DevicePreference,
    pub early_stopping_patience: Option<usize>,
    pub warmup_steps: usize,
    pub grad_clip_norm: Option<Real32>,
    pub cache_blocks_max_mb: Option<usize>,
    pub halo_loss_weight: Real32,
}

/// The single-precision number of a flag, or the one with the default pattern.
pub open spec fn single_or(s: Settings, flag: Seq<char>, bits: u32) -> Real32 {
    match single_value(s, flag) {
        Some(x) => x,
        None => Real32 { bits },
    }
}

fn single_set_or(s: &Vec<Setting>, flag: &str, bits: u32) -> (r: Real32)
    ensures
        r == single_or(settings(s@), flag@, bits),
{
    match single_set(s, flag) {
        Some(x) => x,
        None => Real32 { bits },
    }
}

/// The fields that the flags set.
pub open spec fn is_train_configured(a: TrainArgs, s: Settings) -> bool {
    &&& texts(a.data_dirs@) == all_texts(s, "--data-dir"@)
    &&& texts(a.val_data_dirs@) == all_texts(s, "--val-data-dir"@)
    &&& same_text(a.output_model, text_value(s, "--output-model"@))
    &&& a.n_classes == count_or(s, "--n-classes"@, 8)
    &&& a.epochs == count_or(s, "--epochs"@, 50)
    &&& a.batch_size == count_or(s, "--batch-size"@, 16)
    &&& a.forward_batch_size == count_or(s, "--forward-batch-size"@, 8)
    &&& a.learning_rate == number_or(s, "--learning-rate"@, DEFAULT_LEARNING_RATE)
    &&& a.weight_decay == single_or(s, "--weight-decay"@, DEFAULT_WEIGHT_DECAY)
    &&& a.val_split == number_or(s, "--val-split"@, DEFAULT_VAL_SPLIT)
    &&& a.val_split_explicit == (number_value(s, "--val-split"@) is Some)
    &&& same_text(a.val_tile_blocks, text_value(s, "--val-tile-blocks"@))
    &&& a.seed == seed_or_42(s)
    &&& a.use_feature_tnet == is_on(s, "--use-feature-tnet"@)
    &&& a.use_class_weights == !is_on(s, "--no-class-weights"@)
    &&& a.class_weight_beta == number_or(s, "--class-weight-beta"@, DEFAULT_CLASS_WEIGHT_BETA)
    &&& same_text(a.checkpoint_dir, text_value(s, "--checkpoint-dir"@))
    &&& a.checkpoint_every == count_or(s, "--checkpoint-every"@, 1)
    &&& a.keep_best_n == count_or(s, "--keep-best-n"@, 5)
    &&& a.swa == is_on(s, "--swa"@)
    &&& same_text(a.metrics_out, text_value(s, "--metrics-out"@))
    &&& a.threads == count_value(s, "--threads"@)
    &&& a.device == match device_value(s, "--device"@) {
        Some(d) => d,
        None => DevicePreference::Auto,
    }
    &&& a.early_stopping_patience == count_value(s, "--early-stopping-patience"@)
    &&& a.warmup_steps == count_or(s, "--warmup-steps"@, 0)
    &&& a.grad_clip_norm == single_value(s, "--grad-clip-norm"@)
    &&& a.cache_blocks_max_mb == count_value(s, "--cache-blocks-max-mb"@)
    &&& a.halo_loss_weight == single_or(s, "--halo-loss-weight"@, ONE_SINGLE)
}

/// What is wrong with the settings: the first of the required arguments and
/// ranges, in this order, that they do not meet.
pub open spec fn train_fault(s: Settings) -> Option<Seq<char>> {
    let zero = Real64 { bits: 0 };
    let one = Real64 { bits: ONE };
    let val_split = number_or(s, "--val-split"@, DEFAULT_VAL_SPLIT);
    let beta = number_or(s, "--class-weight-beta"@, DEFAULT_CLASS_WEIGHT_BETA);
    let halo = single_or(s, "--halo-loss-weight"@, ONE_SINGLE);
    if all_texts(s, "--data-dir"@).len() == 0 {
        Some("at least one --data-dir is required"@)
    } else if text_value(s, "--output-model"@) is None {
        Some("--output-model is required"@)
    } else if count_or(s, "--n-classes"@, 8) < 2 {
        Some("--n-classes must be >= 2"@)
    } else if count_or(s, "--epochs"@, 50) == 0 {
        Some("--epochs must be >= 1"@)
    } else if count_or(s, "--batch-size"@, 16) == 0 {
        Some("--batch-size must be >= 1"@)
    } else if count_or(s, "--forward-batch-size"@, 8) == 0 {
        Some("--forward-batch-size must be >= 1"@)
    } else if !positive_finite(number_or(s, "--learning-rate"@, DEFAULT_LEARNING_RATE)) {
        Some("--learning-rate must be a positive finite number"@)
    } else if !(zero.less(val_split) && val_split.less(one)) {
        Some("--val-split must be in the range (0.0, 1.0) exclusive"@)
    } else if count_or(s, "--keep-best-n"@, 5) == 0 {
        Some("--keep-best-n must be >= 1"@)
    } else if count_or(s, "--checkpoint-every"@, 1) == 0 {
        Some("--checkpoint-every must be >= 1"@)
    } else if count_value(s, "--threads"@) == Some(0usize) {
        Some("train: --threads must be >= 1"@)
    } else if !(zero.at_most(beta) && beta.less(one)) {
        Some(
            "--class-weight-beta must be in the range [0.0, 1.0). Use 0.0 for uniform weights, values near 1.0 for stronger minority-class emphasis."@,
        )
    } else if single_value(s, "--grad-clip-norm"@) matches Some(g) && !(g.positive()
        && g.finite()) {
        Some("--grad-clip-norm must be a positive finite number"@)
    } else if count_value(s, "--cache-blocks-max-mb"@) == Some(0usize) {
        Some("--cache-blocks-max-mb must be >= 1"@)
    } else if !halo.finite() || halo.less(Real32 { bits: 0 }) {
        Some("--halo-loss-weight must be finite and >= 0.0"@)
    } else {
        None
    }
}

fn is_zero(n: Option<usize>) -> (r: bool)
    ensures
        r == (n == Some(0usize)),
{
    match n {
        Some(k) => k == 0,
        None => false,
    }
}

fn find_train_fault(a: &TrainArgs) -> (r: Option<&'static str>)
    ensures
        forall|s: Settings| #[trigger]
            is_train_configured(*a, s) ==> match r {
                Some(m) => train_fault(s) == Some(m@),
                None => train_fault(s) is None,
            },
{
    let zero = Real64 { bits: 0 };
    let one = Real64 { bits: ONE };
    let bad_clip: bool = match a.grad_clip_norm {
        Some(g) => !(g.is_positive() && g.is_finite()),
        None => false,
    };
    assert(texts(a.data_dirs@).len() == a.data_dirs@.len());
    if a.data_dirs.len() == 0 {
        Some("at least one --data-dir is required")
    } else if a.output_model.is_none() {
        Some("--output-model is required")
    } else if a.n_classes < 2 {
        Some("--n-classes must be >= 2")
    } else if a.epochs == 0 {
        Some("--epochs must be >= 1")
    } else if a.batch_size == 0 {
        Some("--batch-size must be >= 1")
    } else if a.forward_batch_size == 0 {
        Some("--forward-batch-size must be >= 1")
    } else if !is_positive_finite(a.learning_rate) {
        Some("--learning-rate must be a positive finite number")
    } else if !(zero.lt(a.val_split) && a.val_split.lt(one)) {
        Some("--val-split must be in the range (0.0, 1.0) exclusive")
    } else if a.keep_best_n == 0 {
        Some("--keep-best-n must be >= 1")
    } else if a.checkpoint_every == 0 {
        Some("--checkpoint-every must be >= 1")
    } else if is_zero(a.threads) {
        Some("train: --threads must be >= 1")
    } else if !(zero.le(a.class_weight_beta) && a.class_weight_beta.lt(one)) {
        Some(
            "--class-weight-beta must be in the range [0.0, 1.0). Use 0.0 for uniform weights, values near 1.0 for stronger minority-class emphasis.",
        )
    } else if bad_clip {
        Some("--grad-clip-norm must be a positive finite number")
    } else if is_zero(a.cache_blocks_max_mb) {
        Some("--cache-blocks-max-mb must be >= 1")
    } else if !a.halo_loss_weight.is_finite() || a.halo_loss_weight.lt(Real32 { bits: 0 }) {
        Some("--halo-loss-weight must be finite and >= 0.0")
    } else {
        None
    }
}

fn configure_training(s: &Vec<Setting>) -> (r: TrainArgs)
    ensures
        is_train_configured(r, settings(s@)),
{
    TrainArgs {
        data_dirs: texts_set(s, "--data-dir"),
        val_data_dirs: texts_set(s, "--val-data-dir"),
        output_model: text_set(s, "--output-model"),
        n_classes: count_set_or(s, "--n-classes", 8),
        epochs: count_set_or(s, "--epochs", 50),
        batch_size: count_set_or(s, "--batch-size", 16),
        forward_batch_size: count_set_or(s, "--forward-batch-size", 8),
        learning_rate: number_set_or(s, "--learning-rate", DEFAULT_LEARNING_RATE),
        weight_decay: single_set_or(s, "--weight-decay", DEFAULT_WEIGHT_DECAY),
        val_split: number_set_or(s, "--val-split", DEFAULT_VAL_SPLIT),
        val_split_explicit: number_set(s, "--val-split").is_some(),
        val_tile_blocks: text_set(s, "--val-tile-blocks"),
        seed: match seed_set(s, "--seed") {
            Some(n) => n,
            None => 42,
        },
        use_feature_tnet: switched_on(s, "--use-feature-tnet"),
        use_class_weights: !switched_on(s, "--no-class-weights"),
        class_weight_beta: number_set_or(s, "--class-weight-beta", DEFAULT_CLASS_WEIGHT_BETA),
        checkpoint_dir: text_set(s, "--checkpoint-dir"),
        checkpoint_every: count_set_or(s, "--checkpoint-every", 1),
        keep_best_n: count_set_or(s, "--keep-best-n", 5),
        swa: switched_on(s, "--swa"),
        metrics_out: text_set(s, "--metrics-out"),
        threads: count_set(s, "--threads"),
        device: match device_set(s, "--device") {
            Some(d) => d,
            None => DevicePreference::Auto,
        },
        early_stopping_patience: count_set(s, "--early-stopping-patience"),
        warmup_steps: count_set_or(s, "--warmup-steps", 0),
        grad_clip_norm: single_set(s, "--grad-clip-norm"),
        cache_blocks_max_mb: count_set(s, "--cache-blocks-max-mb"),
        halo_loss_weight: single_set_or(s, "--halo-loss-weight", ONE_SINGLE),
    }
}

/// What the command makes of its settings.
pub open spec fn train_outcome(
    r: Result<TrainArgs, ClassifierError>,
    p: Result<Settings, Seq<char>>,
) -> bool {
    match r {
        Ok(a) => p matches Ok(s) && is_train_configured(a, s) && train_fault(s) is None,
        Err(e) => match p {
            Err(m) => e.text() == pipeline_text(m),
            Ok(s) => train_fault(s) matches Some(m) && e.text() == pipeline_text(m),
        },
    }
}

/// Reads the arguments of the command into a valid configuration.
pub fn parse_args<
    N: Fn(&str) -> Option<Real64> + Copy,
    S: Fn(&str) -> Option<Real32> + Copy,
>(args: &Vec<String>, number: N, single: S) -> (r: Result<TrainArgs, ClassifierError>)
    requires
        reads_all(number),
        reads_all(single),
    ensures
        forall|m: NumberModel, m32: SingleModel| #[trigger]
            reads(number, m) && #[trigger] reads(single, m32) ==> train_outcome(
                r,
                parsed(Command::Train, train_flags(), m, m32, texts(args@)),
            ),
{
    let table = train_table();
    match scan(Command::Train, &table, args, number, single) {
        Err(e) => Err(e),
        Ok(s) => {
            let a = configure_training(&s);
            match find_train_fault(&a) {
                Some(m) => Err(ClassifierError::Pipeline(m.to_owned())),
                None => Ok(a),
            }
        },
    }
}

// ── Outputs and inputs ──────────────────────────────────────────────────────

/// The per-epoch metrics file: the one asked for, else `metrics/metrics.csv`
/// beside the first data directory. A bare `metrics.csv` counts as none.
pub open spec fn metrics_file(metrics_out: Option<String>, first_dir: Seq<char>) -> Seq<char> {
    match metrics_out {
        Some(m) => if m@ == "metrics.csv"@ {
            default_metrics_file(first_dir)
        } else {
            m@
        },
        None => default_metrics_file(first_dir),
    }
}

pub open spec fn default_metrics_file(first_dir: Seq<char>) -> Seq<char> {
    joined_path(joined_path(directory_or(first_dir, first_dir), "metrics"@), "metrics.csv"@)
}

impl TrainArgs {
    /// The per-epoch metrics file.
    pub fn metrics_path(&self) -> (r: String)
        requires
            self.data_dirs@.len() > 0,
        ensures
            r@ == metrics_file(self.metrics_out, self.data_dirs@[0]@),
    {
        if let Some(m) = &self.metrics_out {
            if !str_eq(m.as_str(), "metrics.csv") {
                return m.clone();
            }
        }
        let first = self.data_dirs[0].as_str();
        let dir = directory_of(first, first);
        let sub = join_path(dir.as_str(), "metrics");
        join_path(sub.as_str(), "metrics.csv")
    }

    /// The flags that have no effect because the validation data were given as
    /// directories of their own.
    pub fn ignored_flags(&self) -> (r: Vec<&'static str>)
        ensures
            r@.map_values(|s: &'static str| s@) == ignored(
                self.val_data_dirs@.len() > 0,
                self.val_split_explicit,
                self.val_tile_blocks is Some,
            ),
    {
        let mut out: Vec<&'static str> = Vec::new();
        if self.val_data_dirs.len() > 0 {
            if self.val_split_explicit {
                out.push("--val-split");
            }
            if self.val_tile_blocks.is_some() {
                out.push("--val-tile-blocks");
            }
        }
        assert(out@.map_values(|s: &'static str| s@) =~= ignored(
            self.val_data_dirs@.len() > 0,
            self.val_split_explicit,
            self.val_tile_blocks is Some,
        ));
        out
    }
}

/// The flags that are ignored where the data were split beforehand.
pub open spec fn ignored(presplit: bool, val_split: bool, val_tiles: bool) -> Seq<Seq<char>> {
    (if presplit && val_split {
        seq!["--val-split"@]
    } else {
        Seq::empty()
    }) + (if presplit && val_tiles {
        seq!["--val-tile-blocks"@]
    } else {
        Seq::empty()
    })
}

/// The block IDs of a list, each once.
pub fn block_set(ids: &Vec<u64>) -> (r: HashSet<u64>)
    ensures
        r@ == ids@.to_set(),
{
    broadcast use vstd::std_specs::hash::group_hash_axioms;

    let mut out: HashSet<u64> = HashSet::new();
    let mut i: usize = 0;
    assert(out@ =~= ids@.take(0).to_set());
    while i < ids.len()
        invariant
            i <= ids@.len(),
            out@ == ids@.take(i as int).to_set(),
        decreases ids@.len() - i,
    {
        out.insert(ids[i]);
        proof {
            let t = ids@.take(i + 1);
            assert(t.drop_last() =~= ids@.take(i as int));
            assert(t =~= ids@.take(i as int).push(ids@[i as int]));
            assert forall|x: u64| out@.contains(x) == t.to_set().contains(x) by {
                if t.contains(x) {
                    let k = choose|k: int| 0 <= k < t.len() && t[k] == x;
                    if k < i {
                        assert(ids@.take(i as int)[k] == x);
                    }
                }
                if ids@.take(i as int).contains(x) {
                    let k = choose|k: int|
                        0 <= k < ids@.take(i as int).len() && ids@.take(i as int)[k] == x;
                    assert(t[k] == x);
                }
                assert(t[i as int] == ids@[i as int]);
            }
            assert(out@ =~= t.to_set());
        }
        i = i + 1;
    }
    assert(ids@.take(i as int) =~= ids@);
    out
}

/// The explicit validation blocks: a JSON array of block IDs.
pub fn read_val_tile_blocks(json: &Vec<u8>) -> (r: Result<HashSet<u64>, ClassifierError>)
    ensures
        match json_number_array(json@) {
            Ok(ids) => r matches Ok(set) && set@ == ids.to_set(),
            Err(m) => r matches Err(e) && e.text() == pipeline_text(
                "--val-tile-blocks parse: "@ + m,
            ),
        },
{
    match read_number_array(json) {
        Ok(ids) => Ok(block_set(&ids)),
        Err(m) => Err(ClassifierError::Pipeline(concat2("--val-tile-blocks parse: ", m.as_str()))),
    }
}

// ── What training runs with ─────────────────────────────────────────────────

/// Training is accepted exactly with a data directory and a model to write, at
/// least two classes, every count at least 1, a positive finite learning rate, a
/// validation fraction strictly between 0 and 1, a class weight parameter from 0
/// to below 1, a positive finite gradient limit where there is one, and a halo
/// weight that is finite and not negative.
pub proof fn law_accepted_training_is_usable(a: TrainArgs, s: Settings)
    requires
        is_train_configured(a, s),
    ensures
        train_fault(s) is None <==> {
            let zero = Real64 { bits: 0 };
            let one = Real64 { bits: 0x3FF0_0000_0000_0000 };
            &&& a.data_dirs@.len() > 0
            &&& a.output_model is Some
            &&& a.n_classes >= 2
            &&& a.epochs >= 1
            &&& a.batch_size >= 1
            &&& a.forward_batch_size >= 1
            &&& zero.less(a.learning_rate) && a.learning_rate.finite()
            &&& zero.less(a.val_split) && a.val_split.less(one)
            &&& a.keep_best_n >= 1
            &&& a.checkpoint_every >= 1
            &&& a.threads is None || a.threads.unwrap() >= 1
            &&& zero.at_most(a.class_weight_beta) && a.class_weight_beta.less(one)
            &&& a.grad_clip_norm is None || (a.grad_clip_norm.unwrap().positive()
                && a.grad_clip_norm.unwrap().finite())
            &&& a.cache_blocks_max_mb is None || a.cache_blocks_max_mb.unwrap() >= 1
            &&& a.halo_loss_weight.finite() && !a.halo_loss_weight.less(Real32 { bits: 0 })
        },
{
    assert(texts(a.data_dirs@).len() == a.data_dirs@.len());
}

/// A forward pass takes at least one block, and no more than either size asks
/// for where that is at least one; it takes as many as one of them allows.
pub proof fn law_forward_batch_is_the_smaller(batch_size: int, forward_batch_size: int)
    ensures
        effective_batch(batch_size, forward_batch_size) >= 1,
        batch_size >= 1 ==> effective_batch(batch_size, forward_batch_size) <= batch_size,
        forward_batch_size >= 1 ==> effective_batch(batch_size, forward_batch_size)
            <= forward_batch_size,
        batch_size < 1 || forward_batch_size < 1 ==> effective_batch(batch_size, forward_batch_size)
            == 1,
        batch_size >= 1 && forward_batch_size >= 1 ==> effective_batch(
            batch_size,
            forward_batch_size,
        ) == batch_size || effective_batch(batch_size, forward_batch_size) == forward_batch_size,
{
}

/// Only with data that is split already are the flags of the split ignored, and
/// then those that were given.
pub proof fn law_only_given_flags_are_ignored(presplit: bool, val_split: bool, val_tiles: bool)
    ensures
        ignored(presplit, val_split, val_tiles).contains("--val-split"@) <==> presplit && val_split,
        ignored(presplit, val_split, val_tiles).contains("--val-tile-blocks"@) <==> presplit
            && val_tiles,
        !presplit ==> ignored(presplit, val_split, val_tiles).len() == 0,
        ignored(presplit, val_split, val_tiles).len() <= 2,
{
    reveal_strlit("--val-split");
    reveal_strlit("--val-tile-blocks");
    let s = ignored(presplit, val_split, val_tiles);
    assert("--val-split"@.len() != "--val-tile-blocks"@.len());
    if presplit && val_split {
        assert(s[0] == "--val-split"@);
    }
    if presplit && val_tiles {
        let k: int = if val_split {
            1
        } else {
            0
        };
        assert(s[k] == "--val-tile-blocks"@);
    }
}

/// The metrics go to the file asked for, unless that is the default name; then,
/// and where none is asked for, they go to that name in a `metrics` directory
/// beside the first data directory.
pub proof fn law_metrics_go_where_asked(m: Option<String>, first_dir: Seq<char>)
    ensures
        m is Some && m.unwrap()@ != "metrics.csv"@ ==> metrics_file(m, first_dir) == m.unwrap()@,
        m is None || m.unwrap()@ == "metrics.csv"@ ==> metrics_file(m, first_dir) == joined_path(
            joined_path(directory_or(first_dir, first_dir), "metrics"@),
            "metrics.csv"@,
        ),
{
}

/// What training runs with where flags are not given.
pub proof fn law_training_defaults(a: TrainArgs, s: Settings)
    requires
        is_train_configured(a, s),
    ensures
        unset(s, "--n-classes"@) ==> a.n_classes == 8,
        unset(s, "--epochs"@) ==> a.epochs == 50,
        unset(s, "--batch-size"@) ==> a.batch_size == 16,
        unset(s, "--forward-batch-size"@) ==> a.forward_batch_size == 8,
        unset(s, "--seed"@) ==> a.seed == 42,
        unset(s, "--val-split"@) ==> !a.val_split_explicit,
        unset(s, "--use-feature-tnet"@) ==> !a.use_feature_tnet,
        unset(s, "--no-class-weights"@) ==> a.use_class_weights,
        unset(s, "--checkpoint-every"@) ==> a.checkpoint_every == 1,
        unset(s, "--keep-best-n"@) ==> a.keep_best_n == 5,
        unset(s, "--swa"@) ==> !a.swa,
        unset(s, "--device"@) ==> a.device == DevicePreference::Auto,
        unset(s, "--warmup-steps"@) ==> a.warmup_steps == 0,
        unset(s, "--threads"@) ==> a.threads is None,
        unset(s, "--grad-clip-norm"@) ==> a.grad_clip_norm is None,
        unset(s, "--early-stopping-patience"@) ==> a.early_stopping_patience is None,
        unset(s, "--cache-blocks-max-mb"@) ==> a.cache_blocks_max_mb is None,
        unset(s, "--halo-loss-weight"@) ==> a.halo_loss_weight.bits == 0x3F80_0000,
{
    assert forall|flag: Seq<char>| #[trigger] unset(s, flag) implies last_value(s, flag) is None by {
        law_flags_not_set(s, flag);
    }
}

} // verus!
