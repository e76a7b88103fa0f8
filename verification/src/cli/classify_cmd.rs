//! The `classify` sub-command.

use vstd::prelude::*;

use crate::cli::args::{
    count_set, count_value, is_on, names_first_unmet, no_single, no_single_model, number_set,
    number_value, parsed, reads, reads_all, scan, switched_on, text_set, text_value, Command, Flag,
    Kind, NumberModel, Settings,
};
use crate::error::{pipeline_text, shows, ClassifierError, ShowModel};
use crate::ieee::{ONE, Real64};
use crate::preprocessing::pipeline::BlockManifest;
use crate::text::{concat2, concat3, concat5, texts};

verus! {

/// The flags of the command.
pub open spec fn classify_flags() -> Seq<Flag> {
    seq![
        Flag { name: "--input", kind: Kind::Text },
        Flag { name: "--model", kind: Kind::Text },
        Flag { name: "--blocks", kind: Kind::Text },
        Flag { name: "--output", kind: Kind::Text },
        Flag { name: "--threads", kind: Kind::Count },
        Flag { name: "--fusion-radius", kind: Kind::Number },
        Flag { name: "--fusion-temp", kind: Kind::Number },
        Flag { name: "--allow-laz", kind: Kind::Bare },
    ]
}

fn classify_table() -> (r: Vec<Flag>)
    ensures
        r@ == classify_flags(),
{
    let r: Vec<Flag> = vec![
        Flag { name: "--input", kind: Kind::Text },
        Flag { name: "--model", kind: Kind::Text },
        Flag { name: "--blocks", kind: Kind::Text },
        Flag { name: "--output", kind: Kind::Text },
        Flag { name: "--threads", kind: Kind::Count },
        Flag { name: "--fusion-radius", kind: Kind::Number },
        Flag { name: "--fusion-temp", kind: Kind::Number },
        Flag { name: "--allow-laz", kind: Kind::Bare },
    ];
    assert(r@ =~= classify_flags());
    r
}

/// What the command line asks for.
#[derive(Debug)]
pub struct ClassifyConfig {
    pub input: String,
    pub model: String,
    pub blocks: String,
    pub output: String,
    pub threads: Option<usize>,
    pub fusion_radius: Option<Real64>,
    pub fusion_temp: Option<Real64>,
    /// Write a compressed output as asked, although its encoder is defective.
    pub allow_laz: bool,
}

/// The fields that the flags set.
pub open spec fn is_classify_configured(c: ClassifyConfig, s: Settings) -> bool {
    &&& text_value(s, "--input"@) == Some(c.input@)
    &&& text_value(s, "--model"@) == Some(c.model@)
    &&& text_value(s, "--blocks"@) == Some(c.blocks@)
    &&& text_value(s, "--output"@) == Some(c.output@)
    &&& c.threads == count_value(s, "--threads"@)
    &&& c.fusion_radius == number_value(s, "--fusion-radius"@)
    &&& c.fusion_temp == number_value(s, "--fusion-temp"@)
    &&& c.allow_laz == is_on(s, "--allow-laz"@)
}

/// What is wrong with the settings: the first required flag that is missing,
/// then a thread count of zero.
pub open spec fn classify_fault(s: Settings) -> Option<Seq<char>> {
    if text_value(s, "--input"@) is None {
        Some("classify: --input is required"@)
    } else if text_value(s, "--model"@) is None {
        Some("classify: --model is required"@)
    } else if text_value(s, "--blocks"@) is None {
        Some("classify: --blocks is required"@)
    } else if text_value(s, "--output"@) is None {
        Some("classify: --output is required"@)
    } else if count_value(s, "--threads"@) == Some(0usize) {
        Some("classify: --threads must be >= 1"@)
    } else {
        None
    }
}

/// What the command makes of its settings.
pub open spec fn classify_outcome(
    r: Result<ClassifyConfig, ClassifierError>,
    p: Result<Settings, Seq<char>>,
) -> bool {
    match r {
        Ok(c) => p matches Ok(s) && is_classify_configured(c, s) && classify_fault(s) is None,
        Err(e) => match p {
            Err(m) => e.text() == pipeline_text(m),
            Ok(s) => classify_fault(s) matches Some(m) && e.text() == pipeline_text(m),
        },
    }
}

/// Reads the arguments of the command.
pub fn parse_args<N: Fn(&str) -> Option<Real64> + Copy>(args: &Vec<String>, number: N) -> (r: Result<
    ClassifyConfig,
    ClassifierError,
>)
    requires
        reads_all(number),
    ensures
        forall|m: NumberModel| #[trigger]
            reads(number, m) ==> classify_outcome(
                r,
                parsed(Command::Classify, classify_flags(), m, no_single_model(), texts(args@)),
            ),
{
    let table = classify_table();
    assert(reads(no_single, no_single_model()));
    assert(reads_all(no_single));
    let s = match scan(Command::Classify, &table, args, number, no_single) {
        Ok(s) => s,
        Err(e) => {
            return Err(e);
        },
    };
    let input = match text_set(&s, "--input") {
        Some(t) => t,
        None => {
            return Err(ClassifierError::Pipeline("classify: --input is required".to_owned()));
        },
    };
    let model = match text_set(&s, "--model") {
        Some(t) => t,
        None => {
            return Err(ClassifierError::Pipeline("classify: --model is required".to_owned()));
        },
    };
    let blocks = match text_set(&s, "--blocks") {
        Some(t) => t,
        None => {
            return Err(ClassifierError::Pipeline("classify: --blocks is required".to_owned()));
        },
    };
    let output = match text_set(&s, "--output") {
        Some(t) => t,
        None => {
            return Err(ClassifierError::Pipeline("classify: --output is required".to_owned()));
        },
    };
    let threads = count_set(&s, "--threads");
    match threads {
        Some(t) => {
            if t == 0 {
                return Err(
                    ClassifierError::Pipeline("classify: --threads must be >= 1".to_owned()),
                );
            }
        },
        None => {},
    }
    Ok(
        ClassifyConfig {
            input,
            model,
            blocks,
            output,
            threads,
            fusion_radius: number_set(&s, "--fusion-radius"),
            fusion_temp: number_set(&s, "--fusion-temp"),
            allow_laz: switched_on(&s, "--allow-laz"),
        },
    )
}

// ── Fusion parameters ───────────────────────────────────────────────────────

/// Why a fusion parameter is refused.
#[derive(Debug, Clone, Copy, PartialEq, Eq, Structural)]
pub enum FusionFault {
    /// The radius is negative or not finite.
    BadRadius { radius: Real64 },
    /// The radius exceeds half the block size.
    RadiusTooLarge { radius: Real64, max_radius: Real64 },
    /// The temperature is not finite or not positive.
    BadTemperature { cmd: Command, temp: Real64 },
}

impl FusionFault {
    /// What the user is told.
    pub open spec fn message(self, m: ShowModel) -> Seq<char> {
        match self {
            FusionFault::BadRadius { radius } =>
                "classify: --fusion-radius must be finite and >= 0.0, got "@ + m(radius),
            FusionFault::RadiusTooLarge { radius, max_radius } => "classify: --fusion-radius ("@
                + m(radius) + ") exceeds block_size/2 ("@ + m(max_radius)
                + "); the voting reach may be at most half the block size"@,
            FusionFault::BadTemperature { cmd, temp } => cmd.name()
                + ": --fusion-temp must be finite and > 0.0, got "@ + m(temp),
        }
    }

    fn error<S: Fn(Real64) -> String>(self, show: S) -> (e: ClassifierError)
        requires
            forall|x: Real64| #[trigger] call_requires(show, (x,)),
        ensures
            e is Pipeline,
            forall|m: ShowModel| #[trigger]
                shows(show, m) ==> e.text() == pipeline_text(self.message(m)),
    {
        ClassifierError::Pipeline(
            match self {
                FusionFault::BadRadius { radius } => concat2(
                    "classify: --fusion-radius must be finite and >= 0.0, got ",
                    show(radius).as_str(),
                ),
                FusionFault::RadiusTooLarge { radius, max_radius } => concat5(
                    "classify: --fusion-radius (",
                    show(radius).as_str(),
                    ") exceeds block_size/2 (",
                    show(max_radius).as_str(),
                    "); the voting reach may be at most half the block size",
                ),
                FusionFault::BadTemperature { cmd, temp } => concat3(
                    cmd.name_text(),
                    ": --fusion-temp must be finite and > 0.0, got ",
                    show(temp).as_str(),
                ),
            },
        )
    }
}

/// `r` is the outcome: the number, or the error whose message says why it is
/// refused, with numbers written by `show`.
pub open spec fn settles<S: Fn(Real64) -> String>(
    r: Result<Real64, ClassifierError>,
    outcome: Result<Real64, FusionFault>,
    show: S,
) -> bool {
    match r {
        Ok(x) => outcome == Ok::<Real64, FusionFault>(x),
        Err(e) => {
            &&& outcome is Err
            &&& e is Pipeline
            &&& forall|m: ShowModel| #[trigger]
                shows(show, m) ==> e.text() == pipeline_text(outcome->Err_0.message(m))
        },
    }
}

/// The radius asked for: the explicit one, else the manifest's overlap where
/// it is positive, else zero.
pub open spec fn wanted_radius(explicit: Option<Real64>, block_overlap: Real64) -> Real64 {
    match explicit {
        Some(r) => r,
        None => if block_overlap.positive() {
            block_overlap
        } else {
            Real64 { bits: 0 }
        },
    }
}

/// The voting radius, or why it is refused.
pub open spec fn resolved_radius(
    explicit: Option<Real64>,
    block_overlap: Real64,
    block_size: Real64,
) -> Result<Real64, FusionFault> {
    let radius = wanted_radius(explicit, block_overlap);
    let max_radius = block_size.halved();
    if !radius.finite() || radius.less(Real64 { bits: 0 }) {
        Err(FusionFault::BadRadius { radius })
    } else if max_radius.less(radius) {
        Err(FusionFault::RadiusTooLarge { radius, max_radius })
    } else {
        Ok(radius)
    }
}

/// The fusion voting radius: at most half the block size, so that at most four
/// blocks vote on a point. `show` writes the numbers of the message.
pub fn resolve_fusion_radius<S: Fn(Real64) -> String>(
    explicit: Option<Real64>,
    manifest: &BlockManifest,
    show: S,
) -> (r: Result<Real64, ClassifierError>)
    requires
        forall|x: Real64| #[trigger] call_requires(show, (x,)),
    ensures
        settles(
            r,
            resolved_radius(explicit, manifest.block_overlap, manifest.block_size),
            show,
        ),
{
    let radius = match explicit {
        Some(x) => x,
        None => if manifest.block_overlap.is_positive() {
            manifest.block_overlap
        } else {
            Real64 { bits: 0 }
        },
    };
    if !radius.is_finite() || radius.lt(Real64 { bits: 0 }) {
        return Err(FusionFault::BadRadius { radius }.error(show));
    }
    let max_radius = manifest.block_size.half();
    if max_radius.lt(radius) {
        return Err(FusionFault::RadiusTooLarge { radius, max_radius }.error(show));
    }
    Ok(radius)
}

/// The temperature in effect, or why it is refused.
pub open spec fn valid_temperature(cmd: Command, explicit: Option<Real64>) -> Result<
    Real64,
    FusionFault,
> {
    let temp = match explicit {
        Some(t) => t,
        None => Real64 { bits: ONE },
    };
    if temp.finite() && temp.positive() {
        Ok(temp)
    } else {
        Err(FusionFault::BadTemperature { cmd, temp })
    }
}

/// The softmax temperature applied per block before voting: 1 by default,
/// finite and positive. `show` writes the number of the message, which names
/// the command.
pub fn validate_fusion_temp<S: Fn(Real64) -> String>(
    cmd: Command,
    explicit: Option<Real64>,
    show: S,
) -> (r: Result<Real64, ClassifierError>)
    requires
        forall|x: Real64| #[trigger] call_requires(show, (x,)),
    ensures
        settles(r, valid_temperature(cmd, explicit), show),
{
    let temp = match explicit {
        Some(t) => t,
        None => Real64 { bits: ONE },
    };
    if temp.is_finite() && temp.is_positive() {
        Ok(temp)
    } else {
        Err(FusionFault::BadTemperature { cmd, temp }.error(show))
    }
}

/// A radius that is accepted lies between zero and half the block size.
pub proof fn law_radius_is_bounded(
    explicit: Option<Real64>,
    block_overlap: Real64,
    block_size: Real64,
)
    requires
        !block_size.nan(),
    ensures
        resolved_radius(explicit, block_overlap, block_size) matches Ok(r) ==> {
            &&& r.finite()
            &&& (Real64 { bits: 0 }).at_most(r)
            &&& r.at_most(block_size.halved())
        },
{
}

/// Classification is accepted exactly with an input, a model, blocks and an
/// output, and with a thread where their number is given.
pub proof fn law_accepted_classifications(r: Result<ClassifyConfig, ClassifierError>, s: Settings)
    requires
        classify_outcome(r, Ok::<Settings, Seq<char>>(s)),
    ensures
        r is Ok <==> {
            &&& text_value(s, "--input"@) is Some
            &&& text_value(s, "--model"@) is Some
            &&& text_value(s, "--blocks"@) is Some
            &&& text_value(s, "--output"@) is Some
            &&& count_value(s, "--threads"@) is None || count_value(s, "--threads"@).unwrap() >= 1
        },
        r matches Ok(c) ==> c.threads is None || c.threads.unwrap() >= 1,
{
}

/// The radius is the one asked for, else the overlap of the blocks where that is
/// positive, else zero. It is accepted exactly where it is finite, not negative
/// and not more than half the block size.
pub proof fn law_radius_is_the_one_asked_for(
    explicit: Option<Real64>,
    block_overlap: Real64,
    block_size: Real64,
)
    ensures
        ({
            let zero = Real64 { bits: 0 };
            let radius = if explicit is Some {
                explicit.unwrap()
            } else if zero.less(block_overlap) {
                block_overlap
            } else {
                zero
            };
            let r = resolved_radius(explicit, block_overlap, block_size);
            &&& r is Ok <==> zero.at_most(radius) && radius.finite() && !block_size.halved().less(
                radius,
            )
            &&& r is Ok ==> r->Ok_0 == radius
            &&& r is Err <==> (r->Err_0 == (FusionFault::BadRadius { radius }) && !(zero.at_most(
                radius,
            ) && radius.finite())) || (r->Err_0 == (FusionFault::RadiusTooLarge {
                radius,
                max_radius: block_size.halved(),
            }) && block_size.halved().less(radius))
        }),
{
}

/// The temperature is the one asked for, else one, and is accepted exactly where
/// it is positive and finite.
pub proof fn law_temperature_is_positive(cmd: Command, explicit: Option<Real64>)
    ensures
        ({
            let t = if explicit is Some {
                explicit.unwrap()
            } else {
                Real64 { bits: 0x3FF0_0000_0000_0000 }
            };
            let r = valid_temperature(cmd, explicit);
            &&& r is Ok <==> (Real64 { bits: 0 }).less(t) && t.finite()
            &&& r is Ok ==> r->Ok_0 == t
            &&& r is Err ==> r->Err_0 == (FusionFault::BadTemperature { cmd, temp: t })
        }),
{
}

/// Of the demands on classification, the first that is not met is named.
pub proof fn law_first_classification_fault_is_named(s: Settings)
    ensures
        names_first_unmet(
            classify_fault(s),
            seq![
                (text_value(s, "--input"@) is Some, "classify: --input is required"@),
                (text_value(s, "--model"@) is Some, "classify: --model is required"@),
                (text_value(s, "--blocks"@) is Some, "classify: --blocks is required"@),
                (text_value(s, "--output"@) is Some, "classify: --output is required"@),
                (
                    count_value(s, "--threads"@) is None
                        || count_value(s, "--threads"@).unwrap() >= 1,
                    "classify: --threads must be >= 1"@,
                ),
            ],
        ),
{
    let d = seq![
        (text_value(s, "--input"@) is Some, "classify: --input is required"@),
        (text_value(s, "--model"@) is Some, "classify: --model is required"@),
        (text_value(s, "--blocks"@) is Some, "classify: --blocks is required"@),
        (text_value(s, "--output"@) is Some, "classify: --output is required"@),
        (
            count_value(s, "--threads"@) is None || count_value(s, "--threads"@).unwrap() >= 1,
            "classify: --threads must be >= 1"@,
        ),
    ];
    assert(d[0].0 == (text_value(s, "--input"@) is Some));
    assert(d[1].0 == (text_value(s, "--model"@) is Some));
    assert(d[2].0 == (text_value(s, "--blocks"@) is Some));
    assert(d[3].0 == (text_value(s, "--output"@) is Some));
    assert(d[4].0 == (count_value(s, "--threads"@) is None
        || count_value(s, "--threads"@).unwrap() >= 1));
}

} // verus!
