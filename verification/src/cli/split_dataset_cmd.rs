//! The `split-dataset` sub-command: a physical train/val/test split.

use vstd::prelude::*;

use crate::cli::args::{
    all_texts, is_on, last_value, law_flags_not_set, no_single, no_single_model, number_or,
    number_set_or, parsed, reads, reads_all, scan, seed_set, seed_value, switched_on, text_set,
    text_value, texts_set, unset, Command, Flag, Kind, NumberModel, Settings,
};
use crate::cli::preprocess_cmd::same_text;
use crate::counting::{lemma_selects_step, selects};
use crate::error::{pipeline_text, ClassifierError};
use crate::ieee::{ONE, Real64};
use crate::text::{chars_of, split_trimmed, text_is_empty, texts, trimmed_pieces};

verus! {

/// The pattern of `0.20`.
pub const DEFAULT_VAL_SPLIT: u64 = 0x3FC9_9999_9999_999A;

/// The flags of the command.
pub open spec fn split_flags() -> Seq<Flag> {
    seq![
        Flag { name: "--input", kind: Kind::Text },
        Flag { name: "--input-list", kind: Kind::Text },
        Flag { name: "--output", kind: Kind::Text },
        Flag { name: "--val-split", kind: Kind::Number },
        Flag { name: "--test-split", kind: Kind::Number },
        Flag { name: "--seed", kind: Kind::Seed },
        Flag { name: "--no-stratify-classes", kind: Kind::Bare },
        Flag { name: "--move", kind: Kind::Bare },
    ]
}

fn split_table() -> (r: Vec<Flag>)
    ensures
        r@ == split_flags(),
{
    let r: Vec<Flag> = vec![
        Flag { name: "--input", kind: Kind::Text },
        Flag { name: "--input-list", kind: Kind::Text },
        Flag { name: "--output", kind: Kind::Text },
        Flag { name: "--val-split", kind: Kind::Number },
        Flag { name: "--test-split", kind: Kind::Number },
        Flag { name: "--seed", kind: Kind::Seed },
        Flag { name: "--no-stratify-classes", kind: Kind::Bare },
        Flag { name: "--move", kind: Kind::Bare },
    ];
    assert(r@ =~= split_flags());
    r
}

/// What the command line asks for.
#[derive(Debug)]
pub struct SplitArgs {
    pub inputs: Vec<String>,
    pub input_lists: Vec<String>,
    pub output: Option<String>,
    pub val_split: Real64,
    pub test_split: Real64,
    pub seed: u64,
    pub stratify_classes: bool,
    pub move_files: bool,
}

/// The seed, 42 where none is given.
pub open spec fn seed_or_42(s: Settings) -> u64 {
    match seed_value(s, "--seed"@) {
        Some(n) => n,
        None => 42,
    }
}

/// The fields that the flags set.
pub open spec fn is_split_configured(a: SplitArgs, s: Settings) -> bool {
    &&& texts(a.inputs@) == all_texts(s, "--input"@)
    &&& texts(a.input_lists@) == all_texts(s, "--input-list"@)
    &&& same_text(a.output, text_value(s, "--output"@))
    &&& a.val_split == number_or(s, "--val-split"@, DEFAULT_VAL_SPLIT)
    &&& a.test_split == number_or(s, "--test-split"@, 0)
    &&& a.seed == seed_or_42(s)
    &&& a.stratify_classes == !is_on(s, "--no-stratify-classes"@)
    &&& a.move_files == is_on(s, "--move"@)
}

/// What the command makes of its settings.
pub open spec fn split_outcome(
    r: Result<SplitArgs, ClassifierError>,
    p: Result<Settings, Seq<char>>,
) -> bool {
    match r {
        Ok(a) => p matches Ok(s) && is_split_configured(a, s),
        Err(e) => p matches Err(m) && e.text() == pipeline_text(m),
    }
}

/// Reads the arguments of the command. What they require is checked once the
/// input lists have been read.
pub fn parse_args<N: Fn(&str) -> Option<Real64> + Copy>(args: &Vec<String>, number: N) -> (r: Result<
    SplitArgs,
    ClassifierError,
>)
    requires
        reads_all(number),
    ensures
        forall|m: NumberModel| #[trigger]
            reads(number, m) ==> split_outcome(
                r,
                parsed(Command::SplitDataset, split_flags(), m, no_single_model(), texts(args@)),
            ),
{
    let table = split_table();
    assert(reads(no_single, no_single_model()));
    assert(reads_all(no_single));
    match scan(Command::SplitDataset, &table, args, number, no_single) {
        Err(e) => Err(e),
        Ok(s) => Ok(
            SplitArgs {
                inputs: texts_set(&s, "--input"),
                input_lists: texts_set(&s, "--input-list"),
                output: text_set(&s, "--output"),
                val_split: number_set_or(&s, "--val-split", DEFAULT_VAL_SPLIT),
                test_split: number_set_or(&s, "--test-split", 0),
                seed: match seed_set(&s, "--seed") {
                    Some(n) => n,
                    None => 42,
                },
                stratify_classes: !switched_on(&s, "--no-stratify-classes"),
                move_files: switched_on(&s, "--move"),
            },
        ),
    }
}

// ── Inputs ──────────────────────────────────────────────────────────────────

/// Whether a trimmed line of an input list names a directory: it is neither
/// blank nor a comment.
pub open spec fn names_input(line: Seq<char>) -> bool {
    line.len() > 0 && line[0] != '#'
}

/// The directories that one input list names, in order.
pub open spec fn listed_inputs(lines: Seq<Seq<char>>) -> Seq<Seq<char>>
    decreases lines.len(),
{
    if lines.len() == 0 {
        Seq::empty()
    } else if names_input(lines.last()) {
        listed_inputs(lines.drop_last()).push(lines.last())
    } else {
        listed_inputs(lines.drop_last())
    }
}

/// The directories that the input lists with these contents name, in order.
pub open spec fn all_listed(contents: Seq<Seq<char>>) -> Seq<Seq<char>>
    decreases contents.len(),
{
    if contents.len() == 0 {
        Seq::empty()
    } else {
        all_listed(contents.drop_last()) + listed_inputs(trimmed_pieces(contents.last(), '\n'))
    }
}

fn add_listed(out: &mut Vec<String>, content: &str)
    ensures
        texts(final(out)@) == texts(old(out)@) + listed_inputs(trimmed_pieces(content@, '\n')),
{
    let lines = split_trimmed(content, '\n');
    let ghost all = texts(lines@);
    let mut i: usize = 0;
    assert(all.take(0) =~= Seq::empty());
    assert(texts(out@) =~= texts(old(out)@) + listed_inputs(all.take(0)));
    while i < lines.len()
        invariant
            i <= lines@.len(),
            all == texts(lines@),
            texts(out@) == texts(old(out)@) + listed_inputs(all.take(i as int)),
        decreases lines@.len() - i,
    {
        let ghost before = out@;
        proof {
            assert(all.take(i + 1).drop_last() =~= all.take(i as int));
            assert(all.take(i + 1).last() == lines@[i as int]@);
        }
        if !text_is_empty(lines[i].as_str()) {
            let chars = chars_of(lines[i].as_str());
            if chars[0] != '#' {
                out.push(lines[i].clone());
                proof {
                    assert(texts(out@) =~= texts(before).push(lines@[i as int]@));
                    assert(texts(out@) =~= texts(old(out)@) + listed_inputs(all.take(i + 1)));
                }
            }
        }
        i = i + 1;
    }
    assert(all.take(i as int) =~= all);
}

/// The input directories: those of the input lists, in order, then the
/// explicit ones. Blank lines and lines that start with `#` do not count.
pub fn resolve_inputs(list_contents: &Vec<String>, explicit: &Vec<String>) -> (r: Result<
    Vec<String>,
    ClassifierError,
>)
    ensures
        match r {
            Ok(v) => v@.len() > 0 && texts(v@) == all_listed(texts(list_contents@)) + texts(
                explicit@,
            ),
            Err(e) => all_listed(texts(list_contents@)).len() == 0 && explicit@.len() == 0
                && e.text() == pipeline_text(
                "at least one --input or --input-list entry is required"@,
            ),
        },
{
    let ghost all = texts(list_contents@);
    let mut out: Vec<String> = Vec::new();
    let mut i: usize = 0;
    assert(all.take(0) =~= Seq::empty());
    assert(texts(out@) =~= Seq::empty());
    while i < list_contents.len()
        invariant
            i <= list_contents@.len(),
            all == texts(list_contents@),
            texts(out@) == all_listed(all.take(i as int)),
        decreases list_contents@.len() - i,
    {
        proof {
            assert(all.take(i + 1).drop_last() =~= all.take(i as int));
            assert(all.take(i + 1).last() == list_contents@[i as int]@);
        }
        add_listed(&mut out, list_contents[i].as_str());
        i = i + 1;
    }
    assert(all.take(i as int) =~= all);
    let mut j: usize = 0;
    assert(texts(out@) =~= all_listed(all) + texts(explicit@.take(0)));
    while j < explicit.len()
        invariant
            j <= explicit@.len(),
            texts(out@) == all_listed(all) + texts(explicit@.take(j as int)),
        decreases explicit@.len() - j,
    {
        let ghost before = out@;
        out.push(explicit[j].clone());
        proof {
            assert(texts(out@) =~= texts(before).push(explicit@[j as int]@));
            assert(texts(explicit@.take(j + 1)) =~= texts(explicit@.take(j as int)).push(
                explicit@[j as int]@,
            ));
            assert(texts(out@) =~= all_listed(all) + texts(explicit@.take(j + 1)));
        }
        j = j + 1;
    }
    assert(explicit@.take(j as int) =~= explicit@);
    assert(texts(out@).len() == out@.len());
    assert(texts(explicit@).len() == explicit@.len());
    if out.len() == 0 {
        return Err(
            ClassifierError::Pipeline(
                "at least one --input or --input-list entry is required".to_owned(),
            ),
        );
    }
    Ok(out)
}

/// A fraction from zero on, below one.
pub open spec fn is_fraction(x: Real64) -> bool {
    (Real64 { bits: 0 }).at_most(x) && x.less(Real64 { bits: ONE })
}

/// What is wrong with the split that is asked for: no output, a fraction out
/// of range, or fractions that leave nothing to train on.
pub open spec fn split_fault(a: SplitArgs, sum_reaches_one: bool) -> Option<Seq<char>> {
    if a.output is None {
        Some("--output is required"@)
    } else if !is_fraction(a.val_split) {
        Some("--val-split must be in the range [0.0, 1.0) and finite"@)
    } else if !is_fraction(a.test_split) {
        Some("--test-split must be in the range [0.0, 1.0) and finite"@)
    } else if sum_reaches_one {
        Some("--val-split + --test-split must be < 1.0 (the training set would otherwise be empty)"@)
    } else {
        None
    }
}

/// Checks the split that is asked for; `sum_reaches_one` tells whether the
/// validation and test fractions add up to one or more.
pub fn check_split(a: &SplitArgs, sum_reaches_one: bool) -> (r: Result<(), ClassifierError>)
    ensures
        match r {
            Ok(_) => split_fault(*a, sum_reaches_one) is None,
            Err(e) => split_fault(*a, sum_reaches_one) matches Some(m) && e.text()
                == pipeline_text(m),
        },
{
    let zero = Real64 { bits: 0 };
    let one = Real64 { bits: ONE };
    let m: &str = if a.output.is_none() {
        "--output is required"
    } else if !(zero.le(a.val_split) && a.val_split.lt(one)) {
        "--val-split must be in the range [0.0, 1.0) and finite"
    } else if !(zero.le(a.test_split) && a.test_split.lt(one)) {
        "--test-split must be in the range [0.0, 1.0) and finite"
    } else if sum_reaches_one {
        "--val-split + --test-split must be < 1.0 (the training set would otherwise be empty)"
    } else {
        return Ok(());
    };
    Err(ClassifierError::Pipeline(m.to_owned()))
}

/// Of the lines of a list, those that are not empty and do not start with a
/// number sign name inputs, in their order. The returned sequence gives the
/// place of each.
pub proof fn law_lines_name_inputs(lines: Seq<Seq<char>>) -> (at: Seq<int>)
    ensures
        selects(at, |i: int| lines[i].len() > 0 && lines[i][0] != '#', lines.len() as int),
        listed_inputs(lines).len() == at.len(),
        forall|j: int|
            0 <= j < at.len() ==> #[trigger] listed_inputs(lines)[j] == lines[at[j]],
    decreases lines.len(),
{
    let n = lines.len() as int;
    let p = |i: int| lines[i].len() > 0 && lines[i][0] != '#';
    if n == 0 {
        Seq::<int>::empty()
    } else {
        let rest = lines.drop_last();
        let before = law_lines_name_inputs(rest);
        assert(selects(before, p, n - 1)) by {
            assert forall|i: int| #[trigger] before.contains(i) <==> 0 <= i < n - 1 && p(i) by {
                if 0 <= i < n - 1 {
                    assert(rest[i] == lines[i]);
                }
            }
        }
        assert forall|j: int| 0 <= j < before.len() implies #[trigger] listed_inputs(rest)[j]
            == lines[before[j]] by {
            assert(before.contains(before[j]));
            assert(rest[before[j]] == lines[before[j]]);
        }
        lemma_selects_step(before, p, n - 1);
        if p(n - 1) {
            before.push(n - 1)
        } else {
            before
        }
    }
}

/// A further list adds the inputs of its trimmed lines behind those of the lists
/// before it.
pub proof fn law_lists_are_read_in_order(contents: Seq<Seq<char>>, content: Seq<char>)
    ensures
        all_listed(contents.push(content)) == all_listed(contents) + listed_inputs(
            trimmed_pieces(content, '\n'),
        ),
        all_listed(Seq::<Seq<char>>::empty()).len() == 0,
{
    assert(contents.push(content).drop_last() =~= contents);
}

/// A split is accepted exactly where there is an output, both fractions lie from
/// 0 to below 1, and together they leave something to train on.
pub proof fn law_accepted_splits(a: SplitArgs, sum_reaches_one: bool)
    ensures
        split_fault(a, sum_reaches_one) is None <==> {
            let zero = Real64 { bits: 0 };
            let one = Real64 { bits: 0x3FF0_0000_0000_0000 };
            &&& a.output is Some
            &&& zero.at_most(a.val_split) && a.val_split.less(one)
            &&& zero.at_most(a.test_split) && a.test_split.less(one)
            &&& !sum_reaches_one
        },
{
}

/// What a split runs with where flags are not given.
pub proof fn law_split_defaults(a: SplitArgs, s: Settings)
    requires
        is_split_configured(a, s),
    ensures
        unset(s, "--val-split"@) ==> a.val_split.bits == 0x3FC9_9999_9999_999A,
        unset(s, "--test-split"@) ==> a.test_split.bits == 0,
        unset(s, "--seed"@) ==> a.seed == 42,
        unset(s, "--no-stratify-classes"@) ==> a.stratify_classes,
        unset(s, "--move"@) ==> !a.move_files,
        unset(s, "--output"@) ==> a.output is None,
{
    assert forall|flag: Seq<char>| #[trigger] unset(s, flag) implies last_value(s, flag) is None by {
        law_flags_not_set(s, flag);
    }
}

} // verus!
