//! Rules for writing a classified point file.

use vstd::prelude::*;

use crate::error::{pipeline_text, ClassifierError};
use crate::model::inference::{asprs_code, asprs_of};

verus! {

/// The classification that a point is written with: the code of the class that
/// was predicted for it, else the one it had.
pub open spec fn written_class(
    original: u8,
    n_classes: nat,
    label: Option<usize>,
    label_map: Seq<u8>,
) -> u8 {
    match label {
        Some(class) => if n_classes > 0 {
            asprs_of(label_map, class as int)
        } else {
            original
        },
        None => original,
    }
}

/// The classification that a point is written with.
pub fn classification_to_write(
    original: u8,
    n_classes: usize,
    label: Option<usize>,
    label_map: &Vec<u8>,
) -> (r: u8)
    ensures
        r == written_class(original, n_classes as nat, label, label_map@),
{
    match label {
        Some(class) => if n_classes > 0 {
            asprs_code(label_map, class)
        } else {
            original
        },
        None => original,
    }
}

/// The format of an output file.
#[derive(Debug, Clone, Copy, PartialEq, Eq, Structural)]
pub enum OutputFormat {
    Las,
    Laz,
    Other,
}

pub open spec fn output_format_message() -> Seq<char> {
    "output format must be .las or .laz (COPC write not supported by wblidar)"@
}

/// Fails unless points can be written in this format.
pub fn check_output_format(format: OutputFormat) -> (r: Result<(), ClassifierError>)
    ensures
        match r {
            Ok(_) => format is Las || format is Laz,
            Err(e) => format is Other && e.text() == pipeline_text(output_format_message()),
        },
{
    match format {
        OutputFormat::Las => Ok(()),
        OutputFormat::Laz => Ok(()),
        OutputFormat::Other => Err(
            ClassifierError::Pipeline(
                "output format must be .las or .laz (COPC write not supported by wblidar)".to_owned(),
            ),
        ),
    }
}

/// A point keeps its classification where it got no label or there are no
/// classes; else it gets the code of its class, or 1 for a class beyond the map.
pub proof fn law_unlabelled_points_keep_their_class(
    original: u8,
    n_classes: nat,
    label: Option<usize>,
    label_map: Seq<u8>,
)
    ensures
        label is None || n_classes == 0 ==> written_class(original, n_classes, label, label_map)
            == original,
        label is Some && n_classes > 0 && label.unwrap() < label_map.len() ==> written_class(
            original,
            n_classes,
            label,
            label_map,
        ) == label_map[label.unwrap() as int],
        label is Some && n_classes > 0 && label.unwrap() >= label_map.len() ==> written_class(
            original,
            n_classes,
            label,
            label_map,
        ) == 1,
{
}

} // verus!
