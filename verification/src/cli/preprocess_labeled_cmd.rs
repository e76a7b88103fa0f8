//! The `preprocess-labeled` sub-command.

use vstd::prelude::*;

use crate::cli::args::{
    count_or, count_set_or, count_value, is_nonnegative_finite, is_positive_finite,
    names_first_unmet, no_single, no_single_model, nonnegative_finite, number_or, parsed,
    positive_finite, reads, reads_all, scan, settings, text_set, text_value, Command, Flag, Kind,
    NumberModel, Setting, Settings,
};
use crate::cli::preprocess_cmd::{configure, is_configured, same_text};
use crate::error::{pipeline_text, ClassifierError};
use crate::ieee::Real64;
use crate::preprocessing::config::{FIFTY, ONE, PreprocessConfig, TWO};
use crate::text::texts;

verus! {

/// The flags of the command.
pub open spec fn labeled_flags() -> Seq<Flag> {
    seq![
        Flag { name: "--input", kind: Kind::Text },
        Flag { name: "--output", kind: Kind::Text },
        Flag { name: "--block-size", kind: Kind::Number },
        Flag { name: "--target-points", kind: Kind::Count },
        Flag { name: "--min-density", kind: Kind::Number },
        Flag { name: "--search-radius", kind: Kind::Number },
        Flag { name: "--search-radii", kind: Kind::Numbers },
        Flag { name: "--min-neighbors", kind: Kind::Count },
        Flag { name: "--hag-model", kind: Kind::Text },
        Flag { name: "--label-map", kind: Kind::Text },
        Flag { name: "--tile-grid", kind: Kind::Count },
        Flag { name: "--threads", kind: Kind::Count },
        Flag { name: "--debug-csv", kind: Kind::Switch },
        Flag { name: "--outlier-removal", kind: Kind::Switch },
        Flag { name: "--outlier-radius", kind: Kind::Number },
        Flag { name: "--outlier-elev-diff", kind: Kind::Number },
        Flag { name: "--outlier-use-median", kind: Kind::Switch },
        Flag { name: "--block-overlap", kind: Kind::Number },
    ]
}

fn labeled_table() -> (r: Vec<Flag>)
    ensures
        r@ == labeled_flags(),
{
    let r: Vec<Flag> = vec![
        Flag { name: "--input", kind: Kind::Text },
        Flag { name: "--output", kind: Kind::Text },
        Flag { name: "--block-size", kind: Kind::Number },
        Flag { name: "--target-points", kind: Kind::Count },
        Flag { name: "--min-density", kind: Kind::Number },
        Flag { name: "--search-radius", kind: Kind::Number },
        Flag { name: "--search-radii", kind: Kind::Numbers },
        Flag { name: "--min-neighbors", kind: Kind::Count },
        Flag { name: "--hag-model", kind: Kind::Text },
        Flag { name: "--label-map", kind: Kind::Text },
        Flag { name: "--tile-grid", kind: Kind::Count },
        Flag { name: "--threads", kind: Kind::Count },
        Flag { name: "--debug-csv", kind: Kind::Switch },
        Flag { name: "--outlier-removal", kind: Kind::Switch },
        Flag { name: "--outlier-radius", kind: Kind::Number },
        Flag { name: "--outlier-elev-diff", kind: Kind::Number },
        Flag { name: "--outlier-use-median", kind: Kind::Switch },
        Flag { name: "--block-overlap", kind: Kind::Number },
    ];
    assert(r@ =~= labeled_flags());
    r
}

/// What the command line asks for.
#[derive(Debug)]
pub struct LabeledArgs {
    pub preprocess: PreprocessConfig,
    /// JSON file with the label map; the default map where there is none.
    pub label_map_path: Option<String>,
    /// Number of macro-tiles along each side.
    pub tile_grid: usize,
}

/// The fields that the flags set.
pub open spec fn is_labeled_configured(a: LabeledArgs, s: Settings) -> bool {
    &&& is_configured(a.preprocess, s)
    &&& same_text(a.label_map_path, text_value(s, "--label-map"@))
    &&& a.tile_grid == count_or(s, "--tile-grid"@, 4)
}

/// What is wrong with the settings: the first of the required arguments and
/// ranges, in this order, that they do not meet.
pub open spec fn labeled_fault(s: Settings) -> Option<Seq<char>> {
    let block_size = number_or(s, "--block-size"@, FIFTY);
    let block_overlap = number_or(s, "--block-overlap"@, 0);
    if text_value(s, "--input"@) is None {
        Some("--input is required"@)
    } else if text_value(s, "--output"@) is None {
        Some("--output is required"@)
    } else if !positive_finite(block_size) {
        Some("--block-size must be a positive finite number"@)
    } else if count_or(s, "--target-points"@, 1024) == 0 {
        Some("--target-points must be >= 1"@)
    } else if !nonnegative_finite(number_or(s, "--min-density"@, ONE)) {
        Some("--min-density must be >= 0.0 and finite"@)
    } else if !positive_finite(number_or(s, "--search-radius"@, ONE)) {
        Some("--search-radius must be a positive finite number"@)
    } else if count_or(s, "--min-neighbors"@, 8) == 0 {
        Some("--min-neighbors must be >= 1"@)
    } else if count_or(s, "--tile-grid"@, 4) == 0 {
        Some("--tile-grid must be >= 1"@)
    } else if count_value(s, "--threads"@) == Some(0usize) {
        Some("preprocess-labeled: --threads must be >= 1"@)
    } else if !positive_finite(number_or(s, "--outlier-radius"@, TWO)) {
        Some("--outlier-radius must be a positive finite number"@)
    } else if !nonnegative_finite(number_or(s, "--outlier-elev-diff"@, FIFTY)) {
        Some("--outlier-elev-diff must be a non-negative finite number"@)
    } else if !nonnegative_finite(block_overlap) {
        Some("--block-overlap must be >= 0.0 and finite"@)
    } else if block_size.at_most(block_overlap) {
        Some("--block-overlap must be less than --block-size"@)
    } else {
        None
    }
}

fn find_labeled_fault(s: &Vec<Setting>, a: &LabeledArgs) -> (r: Option<&'static str>)
    requires
        is_labeled_configured(*a, settings(s@)),
    ensures
        match r {
            Some(m) => labeled_fault(settings(s@)) == Some(m@),
            None => labeled_fault(settings(s@)) is None,
        },
{
    let c = &a.preprocess;
    let no_threads: bool = match c.threads {
        Some(t) => t == 0,
        None => false,
    };
    if text_set(s, "--input").is_none() {
        Some("--input is required")
    } else if text_set(s, "--output").is_none() {
        Some("--output is required")
    } else if !is_positive_finite(c.block_size) {
        Some("--block-size must be a positive finite number")
    } else if c.target_points == 0 {
        Some("--target-points must be >= 1")
    } else if !is_nonnegative_finite(c.min_density) {
        Some("--min-density must be >= 0.0 and finite")
    } else if !is_positive_finite(c.search_radius) {
        Some("--search-radius must be a positive finite number")
    } else if c.min_neighbors == 0 {
        Some("--min-neighbors must be >= 1")
    } else if a.tile_grid == 0 {
        Some("--tile-grid must be >= 1")
    } else if no_threads {
        Some("preprocess-labeled: --threads must be >= 1")
    } else if !is_positive_finite(c.outlier_radius) {
        Some("--outlier-radius must be a positive finite number")
    } else if !is_nonnegative_finite(c.outlier_elev_diff) {
        Some("--outlier-elev-diff must be a non-negative finite number")
    } else if !is_nonnegative_finite(c.block_overlap) {
        Some("--block-overlap must be >= 0.0 and finite")
    } else if c.block_size.le(c.block_overlap) {
        Some("--block-overlap must be less than --block-size")
    } else {
        None
    }
}

/// What the command makes of its settings.
pub open spec fn labeled_outcome(
    r: Result<LabeledArgs, ClassifierError>,
    p: Result<Settings, Seq<char>>,
) -> bool {
    match r {
        Ok(a) => p matches Ok(s) && is_labeled_configured(a, s) && labeled_fault(s) is None,
        Err(e) => match p {
            Err(m) => e.text() == pipeline_text(m),
            Ok(s) => labeled_fault(s) matches Some(m) && e.text() == pipeline_text(m),
        },
    }
}

/// Reads the arguments of the command.
pub fn parse_args<N: Fn(&str) -> Option<Real64> + Copy>(args: &Vec<String>, number: N) -> (r: Result<
    LabeledArgs,
    ClassifierError,
>)
    requires
        reads_all(number),
    ensures
        forall|m: NumberModel| #[trigger]
            reads(number, m) ==> labeled_outcome(
                r,
                parsed(
                    Command::PreprocessLabeled,
                    labeled_flags(),
                    m,
                    no_single_model(),
                    texts(args@),
                ),
            ),
{
    let table = labeled_table();
    assert(reads(no_single, no_single_model()));
    assert(reads_all(no_single));
    match scan(Command::PreprocessLabeled, &table, args, number, no_single) {
        Err(e) => Err(e),
        Ok(s) => {
            let a = LabeledArgs {
                preprocess: configure(&s),
                label_map_path: text_set(&s, "--label-map"),
                tile_grid: count_set_or(&s, "--tile-grid", 4),
            };
            match find_labeled_fault(&s, &a) {
                Some(m) => Err(ClassifierError::Pipeline(m.to_owned())),
                None => Ok(a),
            }
        },
    }
}

/// A configuration is accepted exactly where input and output are given, every
/// length and radius but those of the list is a positive finite number, every
/// threshold is finite and not negative, every count is at least 1, and the
/// overlap is less than the block size.
pub proof fn law_accepted_labelled_configurations_are_usable(a: LabeledArgs, s: Settings)
    requires
        is_labeled_configured(a, s),
    ensures
        labeled_fault(s) is None <==> {
            let c = a.preprocess;
            let zero = Real64 { bits: 0 };
            &&& text_value(s, "--input"@) is Some
            &&& text_value(s, "--output"@) is Some
            &&& zero.less(c.block_size) && c.block_size.finite()
            &&& c.target_points >= 1
            &&& zero.at_most(c.min_density) && c.min_density.finite()
            &&& zero.less(c.search_radius) && c.search_radius.finite()
            &&& c.min_neighbors >= 1
            &&& a.tile_grid >= 1
            &&& c.threads is None || c.threads.unwrap() >= 1
            &&& zero.less(c.outlier_radius) && c.outlier_radius.finite()
            &&& zero.at_most(c.outlier_elev_diff) && c.outlier_elev_diff.finite()
            &&& zero.at_most(c.block_overlap) && c.block_overlap.finite()
            &&& c.block_overlap.less(c.block_size)
        },
{
}

/// Of the demands on a labelled configuration, the first that is not met is
/// named.
pub proof fn law_first_labelled_fault_is_named(a: LabeledArgs, s: Settings)
    requires
        is_labeled_configured(a, s),
    ensures
        names_first_unmet(
            labeled_fault(s),
            seq![
                (text_value(s, "--input"@) is Some, "--input is required"@),
                (text_value(s, "--output"@) is Some, "--output is required"@),
                (
                    (Real64 { bits: 0 }).less(a.preprocess.block_size)
                        && a.preprocess.block_size.finite(),
                    "--block-size must be a positive finite number"@,
                ),
                (a.preprocess.target_points >= 1, "--target-points must be >= 1"@),
                (
                    (Real64 { bits: 0 }).at_most(a.preprocess.min_density)
                        && a.preprocess.min_density.finite(),
                    "--min-density must be >= 0.0 and finite"@,
                ),
                (
                    (Real64 { bits: 0 }).less(a.preprocess.search_radius)
                        && a.preprocess.search_radius.finite(),
                    "--search-radius must be a positive finite number"@,
                ),
                (a.preprocess.min_neighbors >= 1, "--min-neighbors must be >= 1"@),
                (a.tile_grid >= 1, "--tile-grid must be >= 1"@),
                (
                    a.preprocess.threads is None || a.preprocess.threads.unwrap() >= 1,
                    "preprocess-labeled: --threads must be >= 1"@,
                ),
                (
                    (Real64 { bits: 0 }).less(a.preprocess.outlier_radius)
                        && a.preprocess.outlier_radius.finite(),
                    "--outlier-radius must be a positive finite number"@,
                ),
                (
                    (Real64 { bits: 0 }).at_most(a.preprocess.outlier_elev_diff)
                        && a.preprocess.outlier_elev_diff.finite(),
                    "--outlier-elev-diff must be a non-negative finite number"@,
                ),
                (
                    (Real64 { bits: 0 }).at_most(a.preprocess.block_overlap)
                        && a.preprocess.block_overlap.finite(),
                    "--block-overlap must be >= 0.0 and finite"@,
                ),
                (
                    a.preprocess.block_overlap.less(a.preprocess.block_size),
                    "--block-overlap must be less than --block-size"@,
                ),
            ],
        ),
{
    let d = seq![
        (text_value(s, "--input"@) is Some, "--input is required"@),
        (text_value(s, "--output"@) is Some, "--output is required"@),
        (
            (Real64 { bits: 0 }).less(a.preprocess.block_size) && a.preprocess.block_size.finite(),
            "--block-size must be a positive finite number"@,
        ),
        (a.preprocess.target_points >= 1, "--target-points must be >= 1"@),
        (
            (Real64 { bits: 0 }).at_most(a.preprocess.min_density)
                && a.preprocess.min_density.finite(),
            "--min-density must be >= 0.0 and finite"@,
        ),
        (
            (Real64 { bits: 0 }).less(a.preprocess.search_radius)
                && a.preprocess.search_radius.finite(),
            "--search-radius must be a positive finite number"@,
        ),
        (a.preprocess.min_neighbors >= 1, "--min-neighbors must be >= 1"@),
        (a.tile_grid >= 1, "--tile-grid must be >= 1"@),
        (
            a.preprocess.threads is None || a.preprocess.threads.unwrap() >= 1,
            "preprocess-labeled: --threads must be >= 1"@,
        ),
        (
            (Real64 { bits: 0 }).less(a.preprocess.outlier_radius)
                && a.preprocess.outlier_radius.finite(),
            "--outlier-radius must be a positive finite number"@,
        ),
        (
            (Real64 { bits: 0 }).at_most(a.preprocess.outlier_elev_diff)
                && a.preprocess.outlier_elev_diff.finite(),
            "--outlier-elev-diff must be a non-negative finite number"@,
        ),
        (
            (Real64 { bits: 0 }).at_most(a.preprocess.block_overlap)
                && a.preprocess.block_overlap.finite(),
            "--block-overlap must be >= 0.0 and finite"@,
        ),
        (
            a.preprocess.block_overlap.less(a.preprocess.block_size),
            "--block-overlap must be less than --block-size"@,
        ),
    ];
    assert(d[0].0 == (text_value(s, "--input"@) is Some));
    assert(d[1].0 == (text_value(s, "--output"@) is Some));
    assert(d[2].0 == ((Real64 { bits: 0 }).less(a.preprocess.block_size)
        && a.preprocess.block_size.finite()));
    assert(d[3].0 == (a.preprocess.target_points >= 1));
    assert(d[4].0 == ((Real64 { bits: 0 }).at_most(a.preprocess.min_density)
        && a.preprocess.min_density.finite()));
    assert(d[5].0 == ((Real64 { bits: 0 }).less(a.preprocess.search_radius)
        && a.preprocess.search_radius.finite()));
    assert(d[6].0 == (a.preprocess.min_neighbors >= 1));
    assert(d[7].0 == (a.tile_grid >= 1));
    assert(d[8].0 == (a.preprocess.threads is None || a.preprocess.threads.unwrap() >= 1));
    assert(d[9].0 == ((Real64 { bits: 0 }).less(a.preprocess.outlier_radius)
        && a.preprocess.outlier_radius.finite()));
    assert(d[10].0 == ((Real64 { bits: 0 }).at_most(a.preprocess.outlier_elev_diff)
        && a.preprocess.outlier_elev_diff.finite()));
    assert(d[11].0 == ((Real64 { bits: 0 }).at_most(a.preprocess.block_overlap)
        && a.preprocess.block_overlap.finite()));
    assert(d[12].0 == (a.preprocess.block_overlap.less(a.preprocess.block_size)));
}

} // verus!
