//! Error types for the point-cloud classifier.

use vstd::prelude::*;

use crate::ieee::Real64;
use crate::text::concat2;

verus! {

/// How numbers are written in messages.
pub type ShowModel = spec_fn(Real64) -> Seq<char>;

/// `show` writes numbers as `m` says.
pub open spec fn shows<S: Fn(Real64) -> String>(show: S, m: ShowModel) -> bool {
    forall|x: Real64, t: String| #[trigger] call_ensures(show, (x,), t) ==> t@ == m(x)
}

/// The text of a pipeline error with the message `m`.
pub open spec fn pipeline_text(m: Seq<char>) -> Seq<char> {
    "Pipeline error: "@ + m
}

/// All errors that can occur within the classifier's own logic.
#[derive(Debug)]
pub enum ClassifierError {
    /// A byte stream ended before the value that it should hold.
    UnexpectedEof,
    /// The input file has an unsupported or undetectable format.
    UnsupportedFormat { path: String },
    /// A block spill file is missing or corrupt during the merge phase.
    SpillCorrupt { path: String },
    /// Generic pipeline error with a descriptive message.
    Pipeline(String),
}

impl ClassifierError {
    /// The message that a user sees.
    pub open spec fn text(self) -> Seq<char> {
        match self {
            ClassifierError::UnexpectedEof => "I/O error: failed to fill whole buffer"@,
            ClassifierError::UnsupportedFormat { path } => "Unsupported LiDAR format: "@ + path@,
            ClassifierError::SpillCorrupt { path } => "Spill file missing or corrupt: "@ + path@,
            ClassifierError::Pipeline(m) => "Pipeline error: "@ + m@,
        }
    }

    pub fn message(&self) -> (r: String)
        ensures
            r@ == self.text(),
    {
        match self {
            ClassifierError::UnexpectedEof => "I/O error: failed to fill whole buffer".to_owned(),
            ClassifierError::UnsupportedFormat { path } => concat2(
                "Unsupported LiDAR format: ",
                path.as_str(),
            ),
            ClassifierError::SpillCorrupt { path } => concat2(
                "Spill file missing or corrupt: ",
                path.as_str(),
            ),
            ClassifierError::Pipeline(m) => concat2("Pipeline error: ", m.as_str()),
        }
    }
}

} // verus!
