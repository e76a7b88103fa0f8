//! The `preprocess` sub-command.

use vstd::prelude::*;

use crate::cli::args::{
    count_or, count_set, count_set_or, count_value, is_nonnegative_finite, is_on,
    is_positive_finite, last_value, law_flags_not_set, names_first_unmet, no_single,
    no_single_model, nonnegative_finite, number_or, number_set_or, numbers_set, numbers_value,
    parsed, positive_finite, reads, reads_all, scan, settings, switched_on, text_set, text_value,
    unset, Command, Flag, Kind, NumberModel, Setting, Settings,
};
use crate::error::{pipeline_text, ClassifierError};
use crate::ieee::Real64;
use crate::preprocessing::config::{FIFTY, ONE, PreprocessConfig, TWO};
use crate::text::{text_is_empty, texts};

verus! {

/// The flags of the command.
pub open spec fn preprocess_flags() -> Seq<Flag> {
    seq![
        Flag { name: "--input", kind: Kind::Text },
        Flag { name: "--output", kind: Kind::Text },
        Flag { name: "--block-size", kind: Kind::Number },
        Flag { name: "--target-points", kind: Kind::Count },
        Flag { name: "--min-density", kind: Kind::Number },
        Flag { name: "--search-radius", kind: Kind::Number },
        Flag { name: "--search-radii", kind: Kind::Numbers },
        Flag { name: "--min-neighbors", kind: Kind::Count },
        Flag { name: "--hag-model", kind: Kind::Text },
        Flag { name: "--threads", kind: Kind::Count },
        Flag { name: "--debug-csv", kind: Kind::Switch },
        Flag { name: "--outlier-removal", kind: Kind::Switch },
        Flag { name: "--outlier-radius", kind: Kind::Number },
        Flag { name: "--outlier-elev-diff", kind: Kind::Number },
        Flag { name: "--outlier-use-median", kind: Kind::Switch },
        Flag { name: "--block-overlap", kind: Kind::Number },
    ]
}

fn preprocess_table() -> (r: Vec<Flag>)
    ensures
        r@ == preprocess_flags(),
{
    let r: Vec<Flag> = vec![
        Flag { name: "--input", kind: Kind::Text },
        Flag { name: "--output", kind: Kind::Text },
        Flag { name: "--block-size", kind: Kind::Number },
        Flag { name: "--target-points", kind: Kind::Count },
        Flag { name: "--min-density", kind: Kind::Number },
        Flag { name: "--search-radius", kind: Kind::Number },
        Flag { name: "--search-radii", kind: Kind::Numbers },
        Flag { name: "--min-neighbors", kind: Kind::Count },
        Flag { name: "--hag-model", kind: Kind::Text },
        Flag { name: "--threads", kind: Kind::Count },
        Flag { name: "--debug-csv", kind: Kind::Switch },
        Flag { name: "--outlier-removal", kind: Kind::Switch },
        Flag { name: "--outlier-radius", kind: Kind::Number },
        Flag { name: "--outlier-elev-diff", kind: Kind::Number },
        Flag { name: "--outlier-use-median", kind: Kind::Switch },
        Flag { name: "--block-overlap", kind: Kind::Number },
    ];
    assert(r@ =~= preprocess_flags());
    r
}

/// The text of a flag, empty where it is not set.
pub open spec fn text_or_empty(s: Settings, flag: Seq<char>) -> Seq<char> {
    match text_value(s, flag) {
        Some(t) => t,
        None => Seq::empty(),
    }
}

/// The list of a flag, empty where it is not set.
pub open spec fn numbers_or_empty(s: Settings, flag: Seq<char>) -> Seq<Real64> {
    match numbers_value(s, flag) {
        Some(v) => v,
        None => Seq::empty(),
    }
}

/// An optional text with these characters.
pub open spec fn same_text(t: Option<String>, s: Option<Seq<char>>) -> bool {
    match t {
        Some(x) => s == Some(x@),
        None => s is None,
    }
}

/// The fields that the flags common to both preprocessing commands set; every
/// other field has its default.
pub open spec fn is_configured(cfg: PreprocessConfig, s: Settings) -> bool {
    let zero = Real64 { bits: 0 };
    &&& cfg.input@ == text_or_empty(s, "--input"@)
    &&& cfg.output_dir@ == text_or_empty(s, "--output"@)
    &&& cfg.block_size == number_or(s, "--block-size"@, FIFTY)
    &&& cfg.target_points == count_or(s, "--target-points"@, 1024)
    &&& cfg.min_density == number_or(s, "--min-density"@, ONE)
    &&& cfg.search_radius == number_or(s, "--search-radius"@, ONE)
    &&& cfg.search_radii@ == numbers_or_empty(s, "--search-radii"@)
    &&& cfg.min_neighbors == count_or(s, "--min-neighbors"@, 8)
    &&& same_text(cfg.hag_model, text_value(s, "--hag-model"@))
    &&& cfg.threads == count_value(s, "--threads"@)
    &&& cfg.debug_csv == is_on(s, "--debug-csv"@)
    &&& cfg.outlier_removal == is_on(s, "--outlier-removal"@)
    &&& cfg.outlier_radius == number_or(s, "--outlier-radius"@, TWO)
    &&& cfg.outlier_elev_diff == number_or(s, "--outlier-elev-diff"@, FIFTY)
    &&& cfg.outlier_use_median == is_on(s, "--outlier-use-median"@)
    &&& cfg.block_overlap == number_or(s, "--block-overlap"@, 0)
    &&& cfg.rest_is_default()
}

/// The configuration that the settings ask for.
pub fn configure(s: &Vec<Setting>) -> (r: PreprocessConfig)
    ensures
        is_configured(r, settings(s@)),
{
    let mut cfg = PreprocessConfig::default();
    match text_set(s, "--input") {
        Some(t) => {
            cfg.input = t;
        },
        None => {
            cfg.input = String::new();
        },
    }
    match text_set(s, "--output") {
        Some(t) => {
            cfg.output_dir = t;
        },
        None => {
            cfg.output_dir = String::new();
        },
    }
    cfg.block_size = number_set_or(s, "--block-size", FIFTY);
    cfg.target_points = count_set_or(s, "--target-points", 1024);
    cfg.min_density = number_set_or(s, "--min-density", ONE);
    cfg.search_radius = number_set_or(s, "--search-radius", ONE);
    match numbers_set(s, "--search-radii") {
        Some(v) => {
            cfg.search_radii = v;
        },
        None => {
            cfg.search_radii = Vec::new();
        },
    }
    cfg.min_neighbors = count_set_or(s, "--min-neighbors", 8);
    cfg.hag_model = text_set(s, "--hag-model");
    cfg.threads = count_set(s, "--threads");
    cfg.debug_csv = switched_on(s, "--debug-csv");
    cfg.outlier_removal = switched_on(s, "--outlier-removal");
    cfg.outlier_radius = number_set_or(s, "--outlier-radius", TWO);
    cfg.outlier_elev_diff = number_set_or(s, "--outlier-elev-diff", FIFTY);
    cfg.outlier_use_median = switched_on(s, "--outlier-use-median");
    cfg.block_overlap = number_set_or(s, "--block-overlap", 0);
    cfg
}

/// Whether one of the radii is no positive finite number.
pub open spec fn has_bad_radius(radii: Seq<Real64>) -> bool {
    exists|i: int| 0 <= i < radii.len() && !positive_finite(#[trigger] radii[i])
}

fn finds_bad_radius(radii: &Vec<Real64>) -> (r: bool)
    ensures
        r == has_bad_radius(radii@),
{
    let mut i: usize = 0;
    while i < radii.len()
        invariant
            i <= radii@.len(),
            forall|k: int| 0 <= k < i ==> positive_finite(#[trigger] radii@[k]),
        decreases radii@.len() - i,
    {
        if !is_positive_finite(radii[i]) {
            assert(!positive_finite(radii@[i as int]));
            return true;
        }
        i = i + 1;
    }
    false
}

/// What is wrong with the settings: the first of the required arguments and
/// ranges, in this order, that they do not meet.
pub open spec fn fault(s: Settings) -> Option<Seq<char>> {
    let block_size = number_or(s, "--block-size"@, FIFTY);
    let block_overlap = number_or(s, "--block-overlap"@, 0);
    if text_or_empty(s, "--input"@).len() == 0 {
        Some("--input is required"@)
    } else if text_or_empty(s, "--output"@).len() == 0 {
        Some("--output is required"@)
    } else if !positive_finite(block_size) {
        Some("--block-size must be a positive finite number"@)
    } else if count_or(s, "--target-points"@, 1024) == 0 {
        Some("--target-points must be >= 1"@)
    } else if !nonnegative_finite(number_or(s, "--min-density"@, ONE)) {
        Some("--min-density must be >= 0.0 and finite"@)
    } else if !positive_finite(number_or(s, "--search-radius"@, ONE)) {
        Some("--search-radius must be a positive finite number"@)
    } else if has_bad_radius(numbers_or_empty(s, "--search-radii"@)) {
        Some("--search-radii: all values must be positive finite numbers"@)
    } else if count_or(s, "--min-neighbors"@, 8) == 0 {
        Some("--min-neighbors must be >= 1"@)
    } else if !positive_finite(number_or(s, "--outlier-radius"@, TWO)) {
        Some("--outlier-radius must be a positive finite number"@)
    } else if !nonnegative_finite(number_or(s, "--outlier-elev-diff"@, FIFTY)) {
        Some("--outlier-elev-diff must be a non-negative finite number"@)
    } else if !nonnegative_finite(block_overlap) {
        Some("--block-overlap must be >= 0.0 and finite"@)
    } else if block_size.at_most(block_overlap) {
        Some("--block-overlap must be less than --block-size"@)
    } else {
        None
    }
}

fn find_fault(c: &PreprocessConfig) -> (r: Option<&'static str>)
    ensures
        forall|s: Settings| #[trigger]
            is_configured(*c, s) ==> match r {
                Some(m) => fault(s) == Some(m@),
                None => fault(s) is None,
            },
{
    if text_is_empty(c.input.as_str()) {
        Some("--input is required")
    } else if text_is_empty(c.output_dir.as_str()) {
        Some("--output is required")
    } else if !is_positive_finite(c.block_size) {
        Some("--block-size must be a positive finite number")
    } else if c.target_points == 0 {
        Some("--target-points must be >= 1")
    } else if !is_nonnegative_finite(c.min_density) {
        Some("--min-density must be >= 0.0 and finite")
    } else if !is_positive_finite(c.search_radius) {
        Some("--search-radius must be a positive finite number")
    } else if finds_bad_radius(&c.search_radii) {
        Some("--search-radii: all values must be positive finite numbers")
    } else if c.min_neighbors == 0 {
        Some("--min-neighbors must be >= 1")
    } else if !is_positive_finite(c.outlier_radius) {
        Some("--outlier-radius must be a positive finite number")
    } else if !is_nonnegative_finite(c.outlier_elev_diff) {
        Some("--outlier-elev-diff must be a non-negative finite number")
    } else if !is_nonnegative_finite(c.block_overlap) {
        Some("--block-overlap must be >= 0.0 and finite")
    } else if c.block_size.le(c.block_overlap) {
        Some("--block-overlap must be less than --block-size")
    } else {
        None
    }
}

/// What the command makes of its settings.
pub open spec fn outcome(
    r: Result<PreprocessConfig, ClassifierError>,
    p: Result<Settings, Seq<char>>,
) -> bool {
    match r {
        Ok(c) => p matches Ok(s) && is_configured(c, s) && fault(s) is None,
        Err(e) => match p {
            Err(m) => e.text() == pipeline_text(m),
            Ok(s) => fault(s) matches Some(m) && e.text() == pipeline_text(m),
        },
    }
}

/// Reads the arguments of the command into a valid configuration.
pub fn parse_args<N: Fn(&str) -> Option<Real64> + Copy>(args: &Vec<String>, number: N) -> (r: Result<
    PreprocessConfig,
    ClassifierError,
>)
    requires
        reads_all(number),
    ensures
        forall|m: NumberModel| #[trigger]
            reads(number, m) ==> outcome(
                r,
                parsed(
                    Command::Preprocess,
                    preprocess_flags(),
                    m,
                    no_single_model(),
                    texts(args@),
                ),
            ),
{
    let table = preprocess_table();
    assert(reads(no_single, no_single_model()));
    assert(reads_all(no_single));
    match scan(Command::Preprocess, &table, args, number, no_single) {
        Err(e) => Err(e),
        Ok(s) => {
            let cfg = configure(&s);
            match find_fault(&cfg) {
                Some(m) => {
                    assert(is_configured(cfg, settings(s@)));
                    Err(ClassifierError::Pipeline(m.to_owned()))
                },
                None => Ok(cfg),
            }
        },
    }
}

/// A configuration is accepted exactly where input and output are named, every
/// length and radius is a positive finite number, every threshold is finite and
/// not negative, every count is at least 1, and the overlap is less than the
/// block size.
pub proof fn law_accepted_configurations_are_usable(c: PreprocessConfig, s: Settings)
    requires
        is_configured(c, s),
    ensures
        fault(s) is None <==> {
            let zero = Real64 { bits: 0 };
            &&& c.input@.len() > 0
            &&& c.output_dir@.len() > 0
            &&& zero.less(c.block_size) && c.block_size.finite()
            &&& c.target_points >= 1
            &&& zero.at_most(c.min_density) && c.min_density.finite()
            &&& zero.less(c.search_radius) && c.search_radius.finite()
            &&& forall|i: int|
                0 <= i < c.search_radii@.len() ==> zero.less(#[trigger] c.search_radii@[i])
                    && c.search_radii@[i].finite()
            &&& c.min_neighbors >= 1
            &&& zero.less(c.outlier_radius) && c.outlier_radius.finite()
            &&& zero.at_most(c.outlier_elev_diff) && c.outlier_elev_diff.finite()
            &&& zero.at_most(c.block_overlap) && c.block_overlap.finite()
            &&& c.block_overlap.less(c.block_size)
        },
{
    let radii = c.search_radii@;
    if has_bad_radius(radii) {
        let i = choose|i: int| 0 <= i < radii.len() && !positive_finite(#[trigger] radii[i]);
        assert(!((Real64 { bits: 0 }).less(radii[i]) && radii[i].finite()));
    } else {
        assert forall|i: int| 0 <= i < radii.len() implies (Real64 { bits: 0 }).less(
            #[trigger] radii[i],
        ) && radii[i].finite() by {
            assert(positive_finite(radii[i]));
        }
    }
}

/// What preprocessing runs with where flags are not given.
pub proof fn law_preprocessing_defaults(c: PreprocessConfig, s: Settings)
    requires
        is_configured(c, s),
    ensures
        unset(s, "--block-size"@) ==> c.block_size.bits == 0x4049_0000_0000_0000,
        unset(s, "--target-points"@) ==> c.target_points == 1024,
        unset(s, "--min-density"@) ==> c.min_density.bits == 0x3FF0_0000_0000_0000,
        unset(s, "--search-radius"@) ==> c.search_radius.bits == 0x3FF0_0000_0000_0000,
        unset(s, "--search-radii"@) ==> c.search_radii@.len() == 0,
        unset(s, "--min-neighbors"@) ==> c.min_neighbors == 8,
        unset(s, "--hag-model"@) ==> c.hag_model is None,
        unset(s, "--threads"@) ==> c.threads is None,
        unset(s, "--debug-csv"@) ==> !c.debug_csv,
        unset(s, "--outlier-removal"@) ==> !c.outlier_removal,
        unset(s, "--outlier-radius"@) ==> c.outlier_radius.bits == 0x4000_0000_0000_0000,
        unset(s, "--outlier-elev-diff"@) ==> c.outlier_elev_diff.bits == 0x4049_0000_0000_0000,
        unset(s, "--outlier-use-median"@) ==> !c.outlier_use_median,
        unset(s, "--block-overlap"@) ==> c.block_overlap.bits == 0,
{
    assert forall|flag: Seq<char>| #[trigger] unset(s, flag) implies last_value(s, flag) is None by {
        law_flags_not_set(s, flag);
    }
}

/// Of the demands on a configuration, the first that is not met is named.
pub proof fn law_first_fault_is_named(c: PreprocessConfig, s: Settings)
    requires
        is_configured(c, s),
    ensures
        names_first_unmet(
            fault(s),
            seq![
                (c.input@.len() > 0, "--input is required"@),
                (c.output_dir@.len() > 0, "--output is required"@),
                (
                    (Real64 { bits: 0 }).less(c.block_size) && c.block_size.finite(),
                    "--block-size must be a positive finite number"@,
                ),
                (c.target_points >= 1, "--target-points must be >= 1"@),
                (
                    (Real64 { bits: 0 }).at_most(c.min_density) && c.min_density.finite(),
                    "--min-density must be >= 0.0 and finite"@,
                ),
                (
                    (Real64 { bits: 0 }).less(c.search_radius) && c.search_radius.finite(),
                    "--search-radius must be a positive finite number"@,
                ),
                (
                    !has_bad_radius(c.search_radii@),
                    "--search-radii: all values must be positive finite numbers"@,
                ),
                (c.min_neighbors >= 1, "--min-neighbors must be >= 1"@),
                (
                    (Real64 { bits: 0 }).less(c.outlier_radius) && c.outlier_radius.finite(),
                    "--outlier-radius must be a positive finite number"@,
                ),
                (
                    (Real64 { bits: 0 }).at_most(c.outlier_elev_diff)
                        && c.outlier_elev_diff.finite(),
                    "--outlier-elev-diff must be a non-negative finite number"@,
                ),
                (
                    (Real64 { bits: 0 }).at_most(c.block_overlap) && c.block_overlap.finite(),
                    "--block-overlap must be >= 0.0 and finite"@,
                ),
                (
                    c.block_overlap.less(c.block_size),
                    "--block-overlap must be less than --block-size"@,
                ),
            ],
        ),
{
    let d = seq![
        (c.input@.len() > 0, "--input is required"@),
        (c.output_dir@.len() > 0, "--output is required"@),
        (
            (Real64 { bits: 0 }).less(c.block_size) && c.block_size.finite(),
            "--block-size must be a positive finite number"@,
        ),
        (c.target_points >= 1, "--target-points must be >= 1"@),
        (
            (Real64 { bits: 0 }).at_most(c.min_density) && c.min_density.finite(),
            "--min-density must be >= 0.0 and finite"@,
        ),
        (
            (Real64 { bits: 0 }).less(c.search_radius) && c.search_radius.finite(),
            "--search-radius must be a positive finite number"@,
        ),
        (
            !has_bad_radius(c.search_radii@),
            "--search-radii: all values must be positive finite numbers"@,
        ),
        (c.min_neighbors >= 1, "--min-neighbors must be >= 1"@),
        (
            (Real64 { bits: 0 }).less(c.outlier_radius) && c.outlier_radius.finite(),
            "--outlier-radius must be a positive finite number"@,
        ),
        (
            (Real64 { bits: 0 }).at_most(c.outlier_elev_diff) && c.outlier_elev_diff.finite(),
            "--outlier-elev-diff must be a non-negative finite number"@,
        ),
        (
            (Real64 { bits: 0 }).at_most(c.block_overlap) && c.block_overlap.finite(),
            "--block-overlap must be >= 0.0 and finite"@,
        ),
        (c.block_overlap.less(c.block_size), "--block-overlap must be less than --block-size"@),
    ];
    assert(d[0].0 == (c.input@.len() > 0));
    assert(d[1].0 == (c.output_dir@.len() > 0));
    assert(d[2].0 == ((Real64 { bits: 0 }).less(c.block_size) && c.block_size.finite()));
    assert(d[3].0 == (c.target_points >= 1));
    assert(d[4].0 == ((Real64 { bits: 0 }).at_most(c.min_density) && c.min_density.finite()));
    assert(d[5].0 == ((Real64 { bits: 0 }).less(c.search_radius) && c.search_radius.finite()));
    assert(d[6].0 == (!has_bad_radius(c.search_radii@)));
    assert(d[7].0 == (c.min_neighbors >= 1));
    assert(d[8].0 == ((Real64 { bits: 0 }).less(c.outlier_radius) && c.outlier_radius.finite()));
    assert(d[9].0 == ((Real64 { bits: 0 }).at_most(c.outlier_elev_diff)
        && c.outlier_elev_diff.finite()));
    assert(d[10].0 == ((Real64 { bits: 0 }).at_most(c.block_overlap) && c.block_overlap.finite()));
    assert(d[11].0 == (c.block_overlap.less(c.block_size)));
}

} // verus!
