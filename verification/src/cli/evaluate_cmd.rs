//! The `evaluate` sub-command: scoring a model on labeled blocks.

use vstd::prelude::*;

use crate::cli::args::{
    all_texts, count_set, count_value, is_on, names_first_unmet, no_single, no_single_model,
    number_set, number_value, parsed, reads, reads_all, scan, switched_on, text_set, text_value,
    texts_set, Command, Flag, Kind, NumberModel, Settings,
};
use crate::error::{pipeline_text, ClassifierError};
use crate::ieee::Real64;
use crate::text::texts;

verus! {

/// The flags of the command.
pub open spec fn evaluate_flags() -> Seq<Flag> {
    seq![
        Flag { name: "--model", kind: Kind::Text },
        Flag { name: "--data-dir", kind: Kind::Text },
        Flag { name: "--metrics-out", kind: Kind::Text },
        Flag { name: "--confusion-out", kind: Kind::Text },
        Flag { name: "--n-classes", kind: Kind::Positive },
        Flag { name: "--threads", kind: Kind::Positive },
        Flag { name: "--fused-eval", kind: Kind::Bare },
        Flag { name: "--fusion-radius", kind: Kind::Number },
        Flag { name: "--fusion-temp", kind: Kind::Number },
    ]
}

fn evaluate_table() -> (r: Vec<Flag>)
    ensures
        r@ == evaluate_flags(),
{
    let r: Vec<Flag> = vec![
        Flag { name: "--model", kind: Kind::Text },
        Flag { name: "--data-dir", kind: Kind::Text },
        Flag { name: "--metrics-out", kind: Kind::Text },
        Flag { name: "--confusion-out", kind: Kind::Text },
        Flag { name: "--n-classes", kind: Kind::Positive },
        Flag { name: "--threads", kind: Kind::Positive },
        Flag { name: "--fused-eval", kind: Kind::Bare },
        Flag { name: "--fusion-radius", kind: Kind::Number },
        Flag { name: "--fusion-temp", kind: Kind::Number },
    ];
    assert(r@ =~= evaluate_flags());
    r
}

/// What the command line asks for.
#[derive(Debug)]
pub struct EvaluateConfig {
    pub model: String,
    pub data_dirs: Vec<String>,
    pub metrics_out: String,
    pub confusion_out: String,
    pub n_classes: Option<usize>,
    pub threads: Option<usize>,
    /// Replicate the cross-block fusion rule and report boundary-band and
    /// interior metrics.
    pub fused_eval: bool,
    pub fusion_radius: Option<Real64>,
    pub fusion_temp: Option<Real64>,
}

/// The fields that the flags set.
pub open spec fn is_evaluate_configured(c: EvaluateConfig, s: Settings) -> bool {
    &&& text_value(s, "--model"@) == Some(c.model@)
    &&& texts(c.data_dirs@) == all_texts(s, "--data-dir"@)
    &&& text_value(s, "--metrics-out"@) == Some(c.metrics_out@)
    &&& text_value(s, "--confusion-out"@) == Some(c.confusion_out@)
    &&& c.n_classes == count_value(s, "--n-classes"@)
    &&& c.threads == count_value(s, "--threads"@)
    &&& c.fused_eval == is_on(s, "--fused-eval"@)
    &&& c.fusion_radius == number_value(s, "--fusion-radius"@)
    &&& c.fusion_temp == number_value(s, "--fusion-temp"@)
}

/// What is wrong with the settings: no data directory, fusion parameters
/// without fused evaluation, or a required flag that is missing.
pub open spec fn evaluate_fault(s: Settings) -> Option<Seq<char>> {
    if all_texts(s, "--data-dir"@).len() == 0 {
        Some("evaluate: at least one --data-dir is required"@)
    } else if !is_on(s, "--fused-eval"@) && (number_value(s, "--fusion-radius"@) is Some
        || number_value(s, "--fusion-temp"@) is Some) {
        Some(
            "evaluate: --fusion-radius/--fusion-temp require --fused-eval (otherwise they would be silently ignored)"@,
        )
    } else if text_value(s, "--model"@) is None {
        Some("evaluate: --model is required"@)
    } else if text_value(s, "--metrics-out"@) is None {
        Some("evaluate: --metrics-out is required"@)
    } else if text_value(s, "--confusion-out"@) is None {
        Some("evaluate: --confusion-out is required"@)
    } else {
        None
    }
}

/// What the command makes of its settings.
pub open spec fn evaluate_outcome(
    r: Result<EvaluateConfig, ClassifierError>,
    p: Result<Settings, Seq<char>>,
) -> bool {
    match r {
        Ok(c) => p matches Ok(s) && is_evaluate_configured(c, s) && evaluate_fault(s) is None,
        Err(e) => match p {
            Err(m) => e.text() == pipeline_text(m),
            Ok(s) => evaluate_fault(s) matches Some(m) && e.text() == pipeline_text(m),
        },
    }
}

/// Reads the arguments of the command.
pub fn parse_args<N: Fn(&str) -> Option<Real64> + Copy>(args: &Vec<String>, number: N) -> (r: Result<
    EvaluateConfig,
    ClassifierError,
>)
    requires
        reads_all(number),
    ensures
        forall|m: NumberModel| #[trigger]
            reads(number, m) ==> evaluate_outcome(
                r,
                parsed(Command::Evaluate, evaluate_flags(), m, no_single_model(), texts(args@)),
            ),
{
    let table = evaluate_table();
    assert(reads(no_single, no_single_model()));
    assert(reads_all(no_single));
    let s = match scan(Command::Evaluate, &table, args, number, no_single) {
        Ok(s) => s,
        Err(e) => {
            return Err(e);
        },
    };
    let data_dirs = texts_set(&s, "--data-dir");
    assert(texts(data_dirs@).len() == data_dirs@.len());
    if data_dirs.len() == 0 {
        return Err(
            ClassifierError::Pipeline("evaluate: at least one --data-dir is required".to_owned()),
        );
    }
    let fused_eval: bool = switched_on(&s, "--fused-eval");
    let fusion_radius = number_set(&s, "--fusion-radius");
    let fusion_temp = number_set(&s, "--fusion-temp");
    if !fused_eval && (fusion_radius.is_some() || fusion_temp.is_some()) {
        return Err(
            ClassifierError::Pipeline(
                "evaluate: --fusion-radius/--fusion-temp require --fused-eval (otherwise they would be silently ignored)".to_owned(),
            ),
        );
    }
    let model = match text_set(&s, "--model") {
        Some(t) => t,
        None => {
            return Err(ClassifierError::Pipeline("evaluate: --model is required".to_owned()));
        },
    };
    let metrics_out = match text_set(&s, "--metrics-out") {
        Some(t) => t,
        None => {
            return Err(
                ClassifierError::Pipeline("evaluate: --metrics-out is required".to_owned()),
            );
        },
    };
    let confusion_out = match text_set(&s, "--confusion-out") {
        Some(t) => t,
        None => {
            return Err(
                ClassifierError::Pipeline("evaluate: --confusion-out is required".to_owned()),
            );
        },
    };
    Ok(
        EvaluateConfig {
            model,
            data_dirs,
            metrics_out,
            confusion_out,
            n_classes: count_set(&s, "--n-classes"),
            threads: count_set(&s, "--threads"),
            fused_eval,
            fusion_radius,
            fusion_temp,
        },
    )
}

/// Evaluation is accepted exactly with a data directory, a model and both files
/// to write, and with fusion settings only where fused evaluation is on.
pub proof fn law_accepted_evaluations(r: Result<EvaluateConfig, ClassifierError>, s: Settings)
    requires
        evaluate_outcome(r, Ok::<Settings, Seq<char>>(s)),
    ensures
        r is Ok <==> {
            &&& all_texts(s, "--data-dir"@).len() > 0
            &&& text_value(s, "--model"@) is Some
            &&& text_value(s, "--metrics-out"@) is Some
            &&& text_value(s, "--confusion-out"@) is Some
            &&& is_on(s, "--fused-eval"@) || (number_value(s, "--fusion-radius"@) is None
                && number_value(s, "--fusion-temp"@) is None)
        },
        r matches Ok(c) ==> c.data_dirs@.len() > 0 && (c.fusion_radius is Some || c.fusion_temp
            is Some ==> c.fused_eval),
{
    if r is Ok {
        assert(texts(r->Ok_0.data_dirs@).len() == r->Ok_0.data_dirs@.len());
    }
}

/// Of the demands on evaluation, the first that is not met is named.
pub proof fn law_first_evaluation_fault_is_named(s: Settings)
    ensures
        names_first_unmet(
            evaluate_fault(s),
            seq![
                (
                    all_texts(s, "--data-dir"@).len() > 0,
                    "evaluate: at least one --data-dir is required"@,
                ),
                (
                    is_on(s, "--fused-eval"@)
                        || (number_value(s, "--fusion-radius"@) is None
                        && number_value(s, "--fusion-temp"@) is None),
                    "evaluate: --fusion-radius/--fusion-temp require --fused-eval (otherwise they would be silently ignored)"@,
                ),
                (text_value(s, "--model"@) is Some, "evaluate: --model is required"@),
                (text_value(s, "--metrics-out"@) is Some, "evaluate: --metrics-out is required"@),
                (
                    text_value(s, "--confusion-out"@) is Some,
                    "evaluate: --confusion-out is required"@,
                ),
            ],
        ),
{
    let d = seq![
        (all_texts(s, "--data-dir"@).len() > 0, "evaluate: at least one --data-dir is required"@),
        (
            is_on(s, "--fused-eval"@)
                || (number_value(s, "--fusion-radius"@) is None
                && number_value(s, "--fusion-temp"@) is None),
            "evaluate: --fusion-radius/--fusion-temp require --fused-eval (otherwise they would be silently ignored)"@,
        ),
        (text_value(s, "--model"@) is Some, "evaluate: --model is required"@),
        (text_value(s, "--metrics-out"@) is Some, "evaluate: --metrics-out is required"@),
        (text_value(s, "--confusion-out"@) is Some, "evaluate: --confusion-out is required"@),
    ];
    assert(d[0].0 == (all_texts(s, "--data-dir"@).len() > 0));
    assert(d[1].0 == (is_on(s, "--fused-eval"@)
        || (number_value(s, "--fusion-radius"@) is None
            && number_value(s, "--fusion-temp"@) is None)));
    assert(d[2].0 == (text_value(s, "--model"@) is Some));
    assert(d[3].0 == (text_value(s, "--metrics-out"@) is Some));
    assert(d[4].0 == (text_value(s, "--confusion-out"@) is Some));
}

} // verus!
