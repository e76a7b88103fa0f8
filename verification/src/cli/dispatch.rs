//! Which sub-command a command line names.
//!
//! There are two programs: `wb_lidar_classify` prepares and classifies point
//! clouds, `wb_lidar_train` prepares labelled data and trains models. Neither
//! knows the other's sub-commands.

use vstd::prelude::*;

use crate::text::str_eq;

verus! {

/// The sub-commands of both programs.
#[derive(Debug, Clone, Copy, PartialEq, Eq, Structural)]
pub enum SubCommand {
    Preprocess,
    Classify,
    PreprocessLabeled,
    SplitDataset,
    Train,
    Evaluate,
    FixLabelMap,
}

/// What to do with a command line.
#[derive(Debug, Clone, Copy, PartialEq, Eq, Structural)]
pub enum Dispatch {
    /// Print the usage and succeed.
    Usage,
    /// Run the sub-command with the arguments behind its name.
    Run(SubCommand),
    /// Name the unknown sub-command, print the usage and fail.
    Unknown,
}

/// The sub-command of `wb_lidar_classify` with this name.
pub open spec fn classify_command(name: Seq<char>) -> Option<SubCommand> {
    if name == "preprocess"@ {
        Some(SubCommand::Preprocess)
    } else if name == "classify"@ {
        Some(SubCommand::Classify)
    } else {
        None
    }
}

/// The sub-command of `wb_lidar_train` with this name.
pub open spec fn train_command(name: Seq<char>) -> Option<SubCommand> {
    if name == "preprocess-labeled"@ {
        Some(SubCommand::PreprocessLabeled)
    } else if name == "split-dataset"@ {
        Some(SubCommand::SplitDataset)
    } else if name == "train"@ {
        Some(SubCommand::Train)
    } else if name == "evaluate"@ {
        Some(SubCommand::Evaluate)
    } else if name == "fix-label-map"@ {
        Some(SubCommand::FixLabelMap)
    } else {
        None
    }
}

/// The word asks for the usage.
pub open spec fn is_help(name: Seq<char>) -> bool {
    name == "help"@ || name == "--help"@ || name == "-h"@
}

/// What to do where the second word, if it asks for no usage, names `command`.
pub open spec fn dispatched(args: Seq<String>, command: Option<SubCommand>) -> Dispatch {
    if args.len() < 2 || is_help(args[1]@) {
        Dispatch::Usage
    } else {
        match command {
            Some(c) => Dispatch::Run(c),
            None => Dispatch::Unknown,
        }
    }
}

fn asks_for_usage(args: &Vec<String>) -> (r: bool)
    ensures
        r == (args@.len() < 2 || is_help(args@[1]@)),
{
    if args.len() < 2 {
        return true;
    }
    let name = args[1].as_str();
    str_eq(name, "help") || str_eq(name, "--help") || str_eq(name, "-h")
}

/// What a command line of `wb_lidar_classify`, whose first word is the
/// program's name, asks for.
pub fn dispatch_classify(args: &Vec<String>) -> (r: Dispatch)
    ensures
        r == dispatched(args@, classify_command(args@[1]@)),
{
    if asks_for_usage(args) {
        return Dispatch::Usage;
    }
    let name = args[1].as_str();
    if str_eq(name, "preprocess") {
        Dispatch::Run(SubCommand::Preprocess)
    } else if str_eq(name, "classify") {
        Dispatch::Run(SubCommand::Classify)
    } else {
        Dispatch::Unknown
    }
}

/// What a command line of `wb_lidar_train`, whose first word is the program's
/// name, asks for.
pub fn dispatch_train(args: &Vec<String>) -> (r: Dispatch)
    ensures
        r == dispatched(args@, train_command(args@[1]@)),
{
    if asks_for_usage(args) {
        return Dispatch::Usage;
    }
    let name = args[1].as_str();
    if str_eq(name, "preprocess-labeled") {
        Dispatch::Run(SubCommand::PreprocessLabeled)
    } else if str_eq(name, "split-dataset") {
        Dispatch::Run(SubCommand::SplitDataset)
    } else if str_eq(name, "train") {
        Dispatch::Run(SubCommand::Train)
    } else if str_eq(name, "evaluate") {
        Dispatch::Run(SubCommand::Evaluate)
    } else if str_eq(name, "fix-label-map") {
        Dispatch::Run(SubCommand::FixLabelMap)
    } else {
        Dispatch::Unknown
    }
}

/// No word is a sub-command of both programs.
pub proof fn law_programs_share_no_command(name: Seq<char>)
    ensures
        classify_command(name) is None || train_command(name) is None,
{
    reveal_strlit("preprocess");
    reveal_strlit("classify");
    reveal_strlit("preprocess-labeled");
    reveal_strlit("split-dataset");
    reveal_strlit("train");
    reveal_strlit("evaluate");
    reveal_strlit("fix-label-map");
    if name == "preprocess"@ {
        assert(name.len() == 10);
    } else if name == "classify"@ {
        assert(name.len() == 8 && name[0] == 'c');
        assert("evaluate"@[0] == 'e');
    }
}

} // verus!
