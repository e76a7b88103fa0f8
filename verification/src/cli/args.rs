//! Command-line arguments: flags, their values, and the messages on bad ones.
//!
//! A command is a table of flags. Scanning its arguments gives the list of
//! flags that were set, each with its value, in order. Numbers with a fraction
//! are read by the caller's own reader.

use vstd::prelude::*;

use crate::counting::{lemma_selects_step, selects};
use crate::error::{pipeline_text, ClassifierError};
use crate::ieee::{Real32, Real64};
use crate::text::{
    concat2, concat3, concat5, parse_u64_text, parse_usize_text, split_trimmed, str_eq, texts,
    trimmed_pieces, unsigned_up_to,
};

verus! {

/// The sub-commands.
#[derive(Debug, Clone, Copy, PartialEq, Eq, Structural)]
pub enum Command {
    Preprocess,
    PreprocessLabeled,
    SplitDataset,
    Train,
    Classify,
    Evaluate,
    FixLabelMap,
}

impl Command {
    /// The name of the sub-command.
    pub open spec fn name(self) -> Seq<char> {
        match self {
            Command::Preprocess => "preprocess"@,
            Command::PreprocessLabeled => "preprocess-labeled"@,
            Command::SplitDataset => "split-dataset"@,
            Command::Train => "train"@,
            Command::Classify => "classify"@,
            Command::Evaluate => "evaluate"@,
            Command::FixLabelMap => "fix-label-map"@,
        }
    }

    pub fn name_text(self) -> (r: &'static str)
        ensures
            r@ == self.name(),
    {
        match self {
            Command::Preprocess => "preprocess",
            Command::PreprocessLabeled => "preprocess-labeled",
            Command::SplitDataset => "split-dataset",
            Command::Train => "train",
            Command::Classify => "classify",
            Command::Evaluate => "evaluate",
            Command::FixLabelMap => "fix-label-map",
        }
    }

    /// Whether the messages of the command on flags and values name it.
    pub open spec fn signs(self) -> bool {
        self is Classify || self is Evaluate || self is FixLabelMap
    }

    fn signs_messages(self) -> (r: bool)
        ensures
            r == self.signs(),
    {
        match self {
            Command::Classify | Command::Evaluate | Command::FixLabelMap => true,
            _ => false,
        }
    }
}

/// What a flag takes.
#[derive(Debug, Clone, Copy, PartialEq, Eq, Structural)]
pub enum Kind {
    /// Any text.
    Text,
    /// A double-precision number.
    Number,
    /// A single-precision number.
    Single,
    /// Double-precision numbers, separated by commas.
    Numbers,
    /// A machine word.
    Count,
    /// A machine word other than 0.
    Positive,
    /// A 64-bit number.
    Seed,
    /// One of `auto`, `cpu`, `gpu`.
    Device,
    /// An optional truth value; true where none follows.
    Switch,
    /// Nothing.
    Bare,
}

/// A flag of a command.
#[derive(Debug, Clone, Copy)]
pub struct Flag {
    pub name: &'static str,
    pub kind: Kind,
}

/// The compute device to train on.
#[derive(Debug, Clone, Copy, PartialEq, Eq, Structural)]
pub enum DevicePreference {
    Auto,
    Cpu,
    Gpu,
}

/// The value of a flag.
#[derive(Debug)]
pub enum ArgValue {
    Text(String),
    Number(Real64),
    Single(Real32),
    Numbers(Vec<Real64>),
    Count(usize),
    Seed(u64),
    Device(DevicePreference),
    Truth(bool),
}

/// The value of a flag, its text and numbers as sequences.
pub ghost enum Value {
    Text(Seq<char>),
    Number(Real64),
    Single(Real32),
    Numbers(Seq<Real64>),
    Count(usize),
    Seed(u64),
    Device(DevicePreference),
    Truth(bool),
}

impl View for ArgValue {
    type V = Value;

    open spec fn view(&self) -> Value {
        match self {
            ArgValue::Text(s) => Value::Text(s@),
            ArgValue::Number(x) => Value::Number(*x),
            ArgValue::Single(x) => Value::Single(*x),
            ArgValue::Numbers(v) => Value::Numbers(v@),
            ArgValue::Count(n) => Value::Count(*n),
            ArgValue::Seed(n) => Value::Seed(*n),
            ArgValue::Device(d) => Value::Device(*d),
            ArgValue::Truth(b) => Value::Truth(*b),
        }
    }
}

/// A flag that was set, with its value.
#[derive(Debug)]
pub struct Setting {
    pub flag: &'static str,
    pub value: ArgValue,
}

/// The settings of a scan: flag names with values.
pub open spec fn settings(s: Seq<Setting>) -> Seq<(Seq<char>, Value)> {
    s.map_values(|x: Setting| (x.flag@, x.value@))
}

// ── Messages ────────────────────────────────────────────────────────────────

/// The message on a flag whose value is missing.
pub open spec fn missing_message(cmd: Command, flag: Seq<char>) -> Seq<char> {
    if cmd.signs() {
        cmd.name() + ": "@ + flag + " requires a value"@
    } else {
        "flag '"@ + flag + "' requires a value"@
    }
}

/// The message on an argument that is no flag of the command.
pub open spec fn unknown_message(cmd: Command, arg: Seq<char>) -> Seq<char> {
    if cmd is Preprocess {
        "unknown argument: '"@ + arg + "'"@
    } else if cmd.signs() {
        cmd.name() + ": unknown argument '"@ + arg + "'"@
    } else {
        cmd.name() + ": unknown flag '"@ + arg + "'"@
    }
}

/// What the message on a bad value says of the flag.
pub open spec fn expectation(cmd: Command, kind: Kind) -> Seq<char> {
    match cmd {
        Command::Preprocess => if kind is Count {
            "' expects a positive integer, got '"@
        } else {
            "' expects a decimal number, got '"@
        },
        Command::Classify | Command::Evaluate | Command::FixLabelMap => if kind is Count
            || kind is Positive {
            " must be a positive integer, got '"@
        } else {
            " must be a number, got '"@
        },
        _ => match kind {
            Kind::Number => ": invalid f64 '"@,
            Kind::Single => ": invalid f32 '"@,
            Kind::Numbers => ": invalid radius '"@,
            Kind::Seed => ": invalid u64 '"@,
            Kind::Device => ": invalid device '"@,
            _ => ": invalid usize '"@,
        },
    }
}

/// The message on a value that does not read as its kind.
pub open spec fn bad_value_message(
    cmd: Command,
    kind: Kind,
    flag: Seq<char>,
    value: Seq<char>,
) -> Seq<char> {
    let lead = if cmd is Preprocess {
        "'"@
    } else if cmd is Evaluate {
        "evaluate: "@
    } else {
        ""@
    };
    lead + flag + expectation(cmd, kind) + value + "'"@
}

/// The message on a zero where a positive number is due.
pub open spec fn zero_message(cmd: Command, flag: Seq<char>) -> Seq<char> {
    cmd.name() + ": "@ + flag + " must be >= 1"@
}

fn missing(cmd: Command, flag: &str) -> (r: ClassifierError)
    ensures
        r.text() == pipeline_text(missing_message(cmd, flag@)),
{
    if cmd.signs_messages() {
        let mut m = concat3(cmd.name_text(), ": ", flag);
        m.append(" requires a value");
        ClassifierError::Pipeline(m)
    } else {
        ClassifierError::Pipeline(concat3("flag '", flag, "' requires a value"))
    }
}

fn unknown(cmd: Command, arg: &str) -> (r: ClassifierError)
    ensures
        r.text() == pipeline_text(unknown_message(cmd, arg@)),
{
    match cmd {
        Command::Preprocess => ClassifierError::Pipeline(concat3("unknown argument: '", arg, "'")),
        _ => {
            let mut m = concat2(
                cmd.name_text(),
                if cmd.signs_messages() {
                    ": unknown argument '"
                } else {
                    ": unknown flag '"
                },
            );
            m.append(arg);
            m.append("'");
            ClassifierError::Pipeline(m)
        },
    }
}

fn expectation_text(cmd: Command, kind: Kind) -> (r: &'static str)
    ensures
        r@ == expectation(cmd, kind),
{
    match cmd {
        Command::Preprocess => match kind {
            Kind::Count => "' expects a positive integer, got '",
            _ => "' expects a decimal number, got '",
        },
        Command::Classify | Command::Evaluate | Command::FixLabelMap => match kind {
            Kind::Count | Kind::Positive => " must be a positive integer, got '",
            _ => " must be a number, got '",
        },
        _ => match kind {
            Kind::Number => ": invalid f64 '",
            Kind::Single => ": invalid f32 '",
            Kind::Numbers => ": invalid radius '",
            Kind::Seed => ": invalid u64 '",
            Kind::Device => ": invalid device '",
            _ => ": invalid usize '",
        },
    }
}

fn bad_value(cmd: Command, kind: Kind, flag: &str, value: &str) -> (r: ClassifierError)
    ensures
        r.text() == pipeline_text(bad_value_message(cmd, kind, flag@, value@)),
{
    let lead: &str = match cmd {
        Command::Preprocess => "'",
        Command::Evaluate => "evaluate: ",
        _ => "",
    };
    ClassifierError::Pipeline(concat5(lead, flag, expectation_text(cmd, kind), value, "'"))
}

// ── Readers of numbers ──────────────────────────────────────────────────────

/// `f` reads numbers as `m` says.
pub open spec fn reads<T, F: Fn(&str) -> Option<T>>(
    f: F,
    m: spec_fn(Seq<char>) -> Option<T>,
) -> bool {
    forall|s: &str, v: Option<T>| #[trigger] call_ensures(f, (s,), v) ==> v == m(s@)
}

/// `f` can be asked to read any text.
pub open spec fn reads_all<T, F: Fn(&str) -> Option<T>>(f: F) -> bool {
    forall|s: &str| #[trigger] call_requires(f, (s,))
}

/// How the caller reads double-precision numbers.
pub type NumberModel = spec_fn(Seq<char>) -> Option<Real64>;

/// How the caller reads single-precision numbers.
pub type SingleModel = spec_fn(Seq<char>) -> Option<Real32>;

/// Reads no single-precision number: for commands that take none.
pub fn no_single(s: &str) -> (r: Option<Real32>)
    ensures
        r is None,
{
    None
}

/// The model of [`no_single`].
pub open spec fn no_single_model() -> SingleModel {
    |s: Seq<char>| None
}

/// The numbers that the texts read as, or the first text that is none.
pub open spec fn numbers_of(m: NumberModel, pieces: Seq<Seq<char>>) -> Result<Seq<Real64>, Seq<char>>
    decreases pieces.len(),
{
    if pieces.len() == 0 {
        Ok(Seq::empty())
    } else {
        match numbers_of(m, pieces.drop_last()) {
            Err(p) => Err(p),
            Ok(v) => match m(pieces.last()) {
                Some(x) => Ok(v.push(x)),
                None => Err(pieces.last()),
            },
        }
    }
}

fn read_numbers<N: Fn(&str) -> Option<Real64>>(s: &str, number: N) -> (r: Result<
    Vec<Real64>,
    String,
>)
    requires
        reads_all(number),
    ensures
        forall|m: NumberModel| #[trigger]
            reads(number, m) ==> match r {
                Ok(v) => numbers_of(m, trimmed_pieces(s@, ',')) == Ok::<Seq<Real64>, Seq<char>>(
                    v@,
                ),
                Err(p) => numbers_of(m, trimmed_pieces(s@, ',')) == Err::<Seq<Real64>, Seq<char>>(
                    p@,
                ),
            },
{
    let pieces = split_trimmed(s, ',');
    let ghost all = texts(pieces@);
    let mut out: Vec<Real64> = Vec::new();
    let mut i: usize = 0;
    assert(all.take(0) =~= Seq::empty());
    while i < pieces.len()
        invariant
            i <= pieces@.len(),
            reads_all(number),
            all == texts(pieces@),
            all == trimmed_pieces(s@, ','),
            forall|m: NumberModel| #[trigger]
                reads(number, m) ==> numbers_of(m, all.take(i as int)) == Ok::<
                    Seq<Real64>,
                    Seq<char>,
                >(out@),
        decreases pieces@.len() - i,
    {
        proof {
            assert(all.take(i + 1).drop_last() =~= all.take(i as int));
            assert(all.take(i + 1).last() == pieces@[i as int]@);
        }
        match number(pieces[i].as_str()) {
            Some(x) => {
                out.push(x);
            },
            None => {
                assert forall|m: NumberModel| #[trigger] reads(number, m) implies numbers_of(m, all)
                    == Err::<Seq<Real64>, Seq<char>>(pieces@[i as int]@) by {
                    lemma_first_bad(m, all, i + 1);
                }
                return Err(pieces[i].clone());
            },
        }
        i = i + 1;
    }
    assert(all.take(i as int) =~= all);
    Ok(out)
}

proof fn lemma_first_bad(m: NumberModel, pieces: Seq<Seq<char>>, k: int)
    requires
        0 <= k <= pieces.len(),
        numbers_of(m, pieces.take(k)) is Err,
    ensures
        numbers_of(m, pieces) == numbers_of(m, pieces.take(k)),
    decreases pieces.len() - k,
{
    if k == pieces.len() {
        assert(pieces.take(k) =~= pieces);
    } else {
        assert(pieces.take(k + 1).drop_last() =~= pieces.take(k));
        lemma_first_bad(m, pieces, k + 1);
    }
}

// ── Values ──────────────────────────────────────────────────────────────────

/// Whether the text says yes.
pub open spec fn says_yes(s: Seq<char>) -> bool {
    s == "true"@
}

/// Whether the text says no.
pub open spec fn says_no(s: Seq<char>) -> bool {
    s == "false"@
}

/// The device that the text names.
pub open spec fn device_of(s: Seq<char>) -> Option<DevicePreference> {
    if s == "auto"@ {
        Some(DevicePreference::Auto)
    } else if s == "cpu"@ {
        Some(DevicePreference::Cpu)
    } else if s == "gpu"@ {
        Some(DevicePreference::Gpu)
    } else {
        None
    }
}

/// The value of a flag of this kind from its text, or the message on it.
pub open spec fn value_of(
    cmd: Command,
    kind: Kind,
    m: NumberModel,
    m32: SingleModel,
    flag: Seq<char>,
    s: Seq<char>,
) -> Result<Value, Seq<char>> {
    let bad = Err(bad_value_message(cmd, kind, flag, s));
    match kind {
        Kind::Text => Ok(Value::Text(s)),
        Kind::Number => match m(s) {
            Some(x) => Ok(Value::Number(x)),
            None => bad,
        },
        Kind::Single => match m32(s) {
            Some(x) => Ok(Value::Single(x)),
            None => bad,
        },
        Kind::Numbers => match numbers_of(m, trimmed_pieces(s, ',')) {
            Ok(v) => Ok(Value::Numbers(v)),
            Err(p) => Err(bad_value_message(cmd, kind, flag, p)),
        },
        Kind::Count => match unsigned_up_to(s, usize::MAX as nat) {
            Some(n) => Ok(Value::Count(n as usize)),
            None => bad,
        },
        Kind::Positive => match unsigned_up_to(s, usize::MAX as nat) {
            Some(n) => if n == 0 {
                Err(zero_message(cmd, flag))
            } else {
                Ok(Value::Count(n as usize))
            },
            None => bad,
        },
        Kind::Seed => match unsigned_up_to(s, u64::MAX as nat) {
            Some(n) => Ok(Value::Seed(n as u64)),
            None => bad,
        },
        Kind::Device => match device_of(s) {
            Some(d) => Ok(Value::Device(d)),
            None => bad,
        },
        Kind::Switch | Kind::Bare => Ok(Value::Truth(true)),
    }
}

/// The value behind position `i`, which is consumed; an error where nothing
/// stands there. The position moves by one either way.
pub fn next_value<'a>(args: &'a Vec<String>, i: &mut usize, flag: &str) -> (r: Result<
    &'a str,
    ClassifierError,
>)
    requires
        *old(i) < usize::MAX,
    ensures
        *final(i) == *old(i) + 1,
        match r {
            Ok(v) => *old(i) + 1 < args@.len() && v@ == args@[*old(i) + 1]@,
            Err(e) => *old(i) + 1 >= args@.len() && e.text() == pipeline_text(
                "flag '"@ + flag@ + "' requires a value"@,
            ),
        },
{
    *i = *i + 1;
    if *i < args.len() {
        Ok(args[*i].as_str())
    } else {
        Err(missing(Command::Preprocess, flag))
    }
}

/// The value at position `i`, with an error that names the command.
pub fn require_value<'a>(cmd: Command, args: &'a Vec<String>, i: usize, flag: &str) -> (r: Result<
    &'a str,
    ClassifierError,
>)
    requires
        cmd.signs(),
    ensures
        match r {
            Ok(v) => i < args@.len() && v@ == args@[i as int]@,
            Err(e) => i >= args@.len() && e.text() == pipeline_text(
                cmd.name() + ": "@ + flag@ + " requires a value"@,
            ),
        },
{
    if i < args.len() {
        Ok(args[i].as_str())
    } else {
        Err(missing(cmd, flag))
    }
}

/// The truth value behind position `i`, which is consumed where it is `true` or
/// `false`; the default otherwise.
pub fn parse_optional_bool(args: &Vec<String>, i: &mut usize, default_val: bool) -> (r: bool)
    requires
        *old(i) < usize::MAX,
    ensures
        ({
            let next = *old(i) + 1;
            if next < args@.len() && says_yes(args@[next]@) {
                r && *final(i) == next
            } else if next < args@.len() && says_no(args@[next]@) {
                !r && *final(i) == next
            } else {
                r == default_val && *final(i) == *old(i)
            }
        }),
{
    let next: usize = *i + 1;
    if next < args.len() {
        let s = args[next].as_str();
        if str_eq(s, "true") {
            *i = next;
            return true;
        }
        if str_eq(s, "false") {
            *i = next;
            return false;
        }
    }
    default_val
}

/// Reads a machine word.
pub fn parse_usize(cmd: Command, s: &str, flag: &str) -> (r: Result<usize, ClassifierError>)
    ensures
        match r {
            Ok(n) => unsigned_up_to(s@, usize::MAX as nat) == Some(n as nat),
            Err(e) => unsigned_up_to(s@, usize::MAX as nat) is None && e.text() == pipeline_text(
                bad_value_message(cmd, Kind::Count, flag@, s@),
            ),
        },
{
    match parse_usize_text(s) {
        Some(n) => Ok(n),
        None => Err(bad_value(cmd, Kind::Count, flag, s)),
    }
}

/// Reads a 64-bit number.
pub fn parse_u64(cmd: Command, s: &str, flag: &str) -> (r: Result<u64, ClassifierError>)
    ensures
        match r {
            Ok(n) => unsigned_up_to(s@, u64::MAX as nat) == Some(n as nat),
            Err(e) => unsigned_up_to(s@, u64::MAX as nat) is None && e.text() == pipeline_text(
                bad_value_message(cmd, Kind::Seed, flag@, s@),
            ),
        },
{
    match parse_u64_text(s) {
        Some(n) => Ok(n),
        None => Err(bad_value(cmd, Kind::Seed, flag, s)),
    }
}

/// Reads a machine word other than 0.
pub fn parse_positive_usize(cmd: Command, s: &str, flag: &str) -> (r: Result<
    usize,
    ClassifierError,
>)
    ensures
        match r {
            Ok(n) => n > 0 && unsigned_up_to(s@, usize::MAX as nat) == Some(n as nat),
            Err(e) => e.text() == pipeline_text(
                match unsigned_up_to(s@, usize::MAX as nat) {
                    Some(_) => zero_message(cmd, flag@),
                    None => bad_value_message(cmd, Kind::Positive, flag@, s@),
                },
            ) && (unsigned_up_to(s@, usize::MAX as nat) matches Some(n) ==> n == 0),
        },
{
    match parse_usize_text(s) {
        Some(n) => {
            if n == 0 {
                let mut m = concat3(cmd.name_text(), ": ", flag);
                m.append(" must be >= 1");
                Err(ClassifierError::Pipeline(m))
            } else {
                Ok(n)
            }
        },
        None => Err(bad_value(cmd, Kind::Positive, flag, s)),
    }
}

fn read_device(s: &str) -> (r: Option<DevicePreference>)
    ensures
        r == device_of(s@),
{
    if str_eq(s, "auto") {
        Some(DevicePreference::Auto)
    } else if str_eq(s, "cpu") {
        Some(DevicePreference::Cpu)
    } else if str_eq(s, "gpu") {
        Some(DevicePreference::Gpu)
    } else {
        None
    }
}

/// The outcome of reading one value agrees with what `value_of` says.
pub open spec fn reads_as(r: Result<ArgValue, ClassifierError>, v: Result<Value, Seq<char>>) -> bool {
    match r {
        Ok(x) => v == Ok::<Value, Seq<char>>(x@),
        Err(e) => v matches Err(m) && e.text() == pipeline_text(m),
    }
}

fn read_value<N: Fn(&str) -> Option<Real64>, S: Fn(&str) -> Option<Real32>>(
    cmd: Command,
    kind: Kind,
    number: N,
    single: S,
    flag: &str,
    s: &str,
) -> (r: Result<ArgValue, ClassifierError>)
    requires
        reads_all(number),
        reads_all(single),
    ensures
        forall|m: NumberModel, m32: SingleModel| #[trigger]
            reads(number, m) && #[trigger] reads(single, m32) ==> reads_as(
                r,
                value_of(cmd, kind, m, m32, flag@, s@),
            ),
{
    match kind {
        Kind::Text => Ok(ArgValue::Text(s.to_owned())),
        Kind::Number => match number(s) {
            Some(x) => Ok(ArgValue::Number(x)),
            None => Err(bad_value(cmd, kind, flag, s)),
        },
        Kind::Single => match single(s) {
            Some(x) => Ok(ArgValue::Single(x)),
            None => Err(bad_value(cmd, kind, flag, s)),
        },
        Kind::Numbers => match read_numbers(s, number) {
            Ok(v) => Ok(ArgValue::Numbers(v)),
            Err(p) => Err(bad_value(cmd, kind, flag, p.as_str())),
        },
        Kind::Count => match parse_usize(cmd, s, flag) {
            Ok(n) => Ok(ArgValue::Count(n)),
            Err(e) => Err(e),
        },
        Kind::Positive => match parse_positive_usize(cmd, s, flag) {
            Ok(n) => Ok(ArgValue::Count(n)),
            Err(e) => Err(e),
        },
        Kind::Seed => match parse_u64(cmd, s, flag) {
            Ok(n) => Ok(ArgValue::Seed(n)),
            Err(e) => Err(e),
        },
        Kind::Device => match read_device(s) {
            Some(d) => Ok(ArgValue::Device(d)),
            None => Err(bad_value(cmd, kind, flag, s)),
        },
        Kind::Switch | Kind::Bare => Ok(ArgValue::Truth(true)),
    }
}

// ── Scanning ────────────────────────────────────────────────────────────────

/// The first flag of the table with this name.
pub open spec fn flag_at(table: Seq<Flag>, name: Seq<char>) -> Option<int>
    decreases table.len(),
{
    if table.len() == 0 {
        None
    } else {
        match flag_at(table.drop_last(), name) {
            Some(k) => Some(k),
            None => if table.last().name@ == name {
                Some(table.len() - 1)
            } else {
                None
            },
        }
    }
}

/// The settings after the arguments from position `i` on, behind those already
/// found, or the message on the first bad argument.
pub open spec fn scanned(
    cmd: Command,
    table: Seq<Flag>,
    m: NumberModel,
    m32: SingleModel,
    args: Seq<Seq<char>>,
    i: int,
    found: Seq<(Seq<char>, Value)>,
) -> Result<Seq<(Seq<char>, Value)>, Seq<char>>
    decreases args.len() - i,
{
    if i < 0 || i >= args.len() {
        Ok(found)
    } else {
        match flag_at(table, args[i]) {
            None => Err(unknown_message(cmd, args[i])),
            Some(k) => {
                let flag = table[k];
                match flag.kind {
                    Kind::Bare => scanned(
                        cmd,
                        table,
                        m,
                        m32,
                        args,
                        i + 1,
                        found.push((flag.name@, Value::Truth(true))),
                    ),
                    Kind::Switch => if i + 1 < args.len() && says_yes(args[i + 1]) {
                        scanned(
                            cmd,
                            table,
                            m,
                            m32,
                            args,
                            i + 2,
                            found.push((flag.name@, Value::Truth(true))),
                        )
                    } else if i + 1 < args.len() && says_no(args[i + 1]) {
                        scanned(
                            cmd,
                            table,
                            m,
                            m32,
                            args,
                            i + 2,
                            found.push((flag.name@, Value::Truth(false))),
                        )
                    } else {
                        scanned(
                            cmd,
                            table,
                            m,
                            m32,
                            args,
                            i + 1,
                            found.push((flag.name@, Value::Truth(true))),
                        )
                    },
                    _ => if i + 1 >= args.len() {
                        Err(missing_message(cmd, flag.name@))
                    } else {
                        match value_of(cmd, flag.kind, m, m32, flag.name@, args[i + 1]) {
                            Err(e) => Err(e),
                            Ok(v) => scanned(
                                cmd,
                                table,
                                m,
                                m32,
                                args,
                                i + 2,
                                found.push((flag.name@, v)),
                            ),
                        }
                    },
                }
            },
        }
    }
}

/// The settings of a whole command line.
pub open spec fn parsed(
    cmd: Command,
    table: Seq<Flag>,
    m: NumberModel,
    m32: SingleModel,
    args: Seq<Seq<char>>,
) -> Result<Seq<(Seq<char>, Value)>, Seq<char>> {
    scanned(cmd, table, m, m32, args, 0, Seq::empty())
}

fn find_flag(table: &Vec<Flag>, name: &str) -> (r: Option<usize>)
    ensures
        match r {
            Some(k) => k < table@.len() && flag_at(table@, name@) == Some(k as int),
            None => flag_at(table@, name@) is None,
        },
{
    let mut k: usize = 0;
    assert(table@.take(0) =~= Seq::empty());
    while k < table.len()
        invariant
            k <= table@.len(),
            flag_at(table@.take(k as int), name@) is None,
        decreases table@.len() - k,
    {
        proof {
            assert(table@.take(k + 1).drop_last() =~= table@.take(k as int));
            assert(table@.take(k + 1).last() == table@[k as int]);
        }
        if str_eq(table[k].name, name) {
            proof {
                lemma_flag_found(table@, name@, k + 1);
            }
            return Some(k);
        }
        k = k + 1;
    }
    assert(table@.take(k as int) =~= table@);
    None
}

proof fn lemma_flag_found(table: Seq<Flag>, name: Seq<char>, k: int)
    requires
        0 <= k <= table.len(),
        flag_at(table.take(k), name) is Some,
    ensures
        flag_at(table, name) == flag_at(table.take(k), name),
    decreases table.len() - k,
{
    if k == table.len() {
        assert(table.take(k) =~= table);
    } else {
        assert(table.take(k + 1).drop_last() =~= table.take(k));
        lemma_flag_found(table, name, k + 1);
    }
}

/// The outcome of a scan agrees with what `parsed` says.
pub open spec fn scan_result(
    r: Result<Vec<Setting>, ClassifierError>,
    p: Result<Seq<(Seq<char>, Value)>, Seq<char>>,
) -> bool {
    match r {
        Ok(s) => p == Ok::<Seq<(Seq<char>, Value)>, Seq<char>>(settings(s@)),
        Err(e) => p matches Err(m) && e.text() == pipeline_text(m),
    }
}

/// Scans the arguments of a command.
pub fn scan<N: Fn(&str) -> Option<Real64> + Copy, S: Fn(&str) -> Option<Real32> + Copy>(
    cmd: Command,
    table: &Vec<Flag>,
    args: &Vec<String>,
    number: N,
    single: S,
) -> (r: Result<Vec<Setting>, ClassifierError>)
    requires
        reads_all(number),
        reads_all(single),
    ensures
        forall|m: NumberModel, m32: SingleModel| #[trigger]
            reads(number, m) && #[trigger] reads(single, m32) ==> scan_result(
                r,
                parsed(cmd, table@, m, m32, texts(args@)),
            ),
{
    let ghost all = texts(args@);
    let mut out: Vec<Setting> = Vec::new();
    let mut i: usize = 0;
    assert(settings(out@) =~= Seq::empty());
    while i < args.len()
        invariant
            i <= args@.len(),
            reads_all(number),
            reads_all(single),
            all == texts(args@),
            forall|m: NumberModel, m32: SingleModel| #[trigger]
                reads(number, m) && #[trigger] reads(single, m32) ==> parsed(
                    cmd,
                    table@,
                    m,
                    m32,
                    all,
                ) == scanned(cmd, table@, m, m32, all, i as int, settings(out@)),
        decreases args@.len() - i,
    {
        assert(args@.len() == args.len());
        assert(all[i as int] == args@[i as int]@);
        let k: usize = match find_flag(table, args[i].as_str()) {
            Some(k) => k,
            None => {
                return Err(unknown(cmd, args[i].as_str()));
            },
        };
        let flag = table[k];
        let ghost before = out@;
        let ghost start: int = i as int;
        match flag.kind {
            Kind::Bare => {
                out.push(Setting { flag: flag.name, value: ArgValue::Truth(true) });
                assert(settings(out@) =~= settings(before).push((flag.name@, Value::Truth(true))));
            },
            Kind::Switch => {
                proof {
                    if start + 1 < all.len() {
                        assert(all[start + 1] == args@[start + 1]@);
                    }
                }
                let b: bool = parse_optional_bool(args, &mut i, true);
                out.push(Setting { flag: flag.name, value: ArgValue::Truth(b) });
                assert(settings(out@) =~= settings(before).push((flag.name@, Value::Truth(b))));
            },
            _ => {
                proof {
                    if start + 1 < all.len() {
                        assert(all[start + 1] == args@[start + 1]@);
                    }
                }
                let s: &str = if cmd.signs_messages() {
                    i = i + 1;
                    match require_value(cmd, args, i, flag.name) {
                        Ok(s) => s,
                        Err(e) => {
                            return Err(e);
                        },
                    }
                } else {
                    match next_value(args, &mut i, flag.name) {
                        Ok(s) => s,
                        Err(e) => {
                            return Err(e);
                        },
                    }
                };
                match read_value(cmd, flag.kind, number, single, flag.name, s) {
                    Ok(v) => {
                        let ghost w = v@;
                        out.push(Setting { flag: flag.name, value: v });
                        assert(settings(out@) =~= settings(before).push((flag.name@, w)));
                    },
                    Err(e) => {
                        return Err(e);
                    },
                }
            },
        }
        i = i + 1;
    }
    Ok(out)
}

// ── Looking settings up ─────────────────────────────────────────────────────

/// The settings of a command line.
pub type Settings = Seq<(Seq<char>, Value)>;

/// The value of a flag: that of its last setting.
pub open spec fn last_value(s: Settings, flag: Seq<char>) -> Option<Value>
    decreases s.len(),
{
    if s.len() == 0 {
        None
    } else if s.last().0 == flag {
        Some(s.last().1)
    } else {
        last_value(s.drop_last(), flag)
    }
}

/// The texts of all settings of a flag, in order.
pub open spec fn all_texts(s: Settings, flag: Seq<char>) -> Seq<Seq<char>>
    decreases s.len(),
{
    if s.len() == 0 {
        Seq::empty()
    } else {
        let before = all_texts(s.drop_last(), flag);
        match s.last().1 {
            Value::Text(t) => if s.last().0 == flag {
                before.push(t)
            } else {
                before
            },
            _ => before,
        }
    }
}

fn last_setting<'a>(s: &'a Vec<Setting>, flag: &str) -> (r: Option<&'a ArgValue>)
    ensures
        match r {
            Some(v) => last_value(settings(s@), flag@) == Some(v@),
            None => last_value(settings(s@), flag@) is None,
        },
{
    let mut i: usize = s.len();
    assert(s@.take(i as int) =~= s@);
    while i > 0
        invariant
            i <= s@.len(),
            last_value(settings(s@), flag@) == last_value(settings(s@.take(i as int)), flag@),
        decreases i,
    {
        proof {
            let t = settings(s@.take(i as int));
            assert(t.last() == (s@[i - 1].flag@, s@[i - 1].value@));
            assert(t.drop_last() =~= settings(s@.take(i - 1)));
        }
        i = i - 1;
        if str_eq(s[i].flag, flag) {
            return Some(&s[i].value);
        }
    }
    None
}

/// The texts of all settings of a flag, in order.
pub fn texts_set(s: &Vec<Setting>, flag: &str) -> (r: Vec<String>)
    ensures
        texts(r@) == all_texts(settings(s@), flag@),
{
    let mut out: Vec<String> = Vec::new();
    let mut i: usize = 0;
    assert(settings(s@.take(0)) =~= Seq::empty());
    assert(texts(out@) =~= Seq::empty());
    while i < s.len()
        invariant
            i <= s@.len(),
            texts(out@) == all_texts(settings(s@.take(i as int)), flag@),
        decreases s@.len() - i,
    {
        let ghost before = out@;
        proof {
            let t = settings(s@.take(i + 1));
            assert(t.last() == (s@[i as int].flag@, s@[i as int].value@));
            assert(t.drop_last() =~= settings(s@.take(i as int)));
        }
        match &s[i].value {
            ArgValue::Text(t) => {
                if str_eq(s[i].flag, flag) {
                    out.push(t.clone());
                    assert(texts(out@) =~= texts(before).push(t@));
                }
            },
            _ => {},
        }
        i = i + 1;
    }
    assert(s@.take(i as int) =~= s@);
    out
}

/// The text value of a flag, where it is set.
pub open spec fn text_value(s: Settings, flag: Seq<char>) -> Option<Seq<char>> {
    match last_value(s, flag) {
        Some(Value::Text(v)) => Some(v),
        _ => None,
    }
}

pub fn text_set(s: &Vec<Setting>, flag: &str) -> (r: Option<String>)
    ensures
        match r {
            Some(v) => text_value(settings(s@), flag@) == Some(v@),
            None => text_value(settings(s@), flag@) is None,
        },
{
    match last_setting(s, flag) {
        Some(ArgValue::Text(t)) => Some(t.clone()),
        _ => None,
    }
}

/// The number value of a flag, where it is set.
pub open spec fn number_value(s: Settings, flag: Seq<char>) -> Option<Real64> {
    match last_value(s, flag) {
        Some(Value::Number(v)) => Some(v),
        _ => None,
    }
}

pub fn number_set(s: &Vec<Setting>, flag: &str) -> (r: Option<Real64>)
    ensures
        r == number_value(settings(s@), flag@),
{
    match last_setting(s, flag) {
        Some(ArgValue::Number(t)) => Some(*t),
        _ => None,
    }
}

/// The single value of a flag, where it is set.
pub open spec fn single_value(s: Settings, flag: Seq<char>) -> Option<Real32> {
    match last_value(s, flag) {
        Some(Value::Single(v)) => Some(v),
        _ => None,
    }
}

pub fn single_set(s: &Vec<Setting>, flag: &str) -> (r: Option<Real32>)
    ensures
        r == single_value(settings(s@), flag@),
{
    match last_setting(s, flag) {
        Some(ArgValue::Single(t)) => Some(*t),
        _ => None,
    }
}

/// The count value of a flag, where it is set.
pub open spec fn count_value(s: Settings, flag: Seq<char>) -> Option<usize> {
    match last_value(s, flag) {
        Some(Value::Count(v)) => Some(v),
        _ => None,
    }
}

pub fn count_set(s: &Vec<Setting>, flag: &str) -> (r: Option<usize>)
    ensures
        r == count_value(settings(s@), flag@),
{
    match last_setting(s, flag) {
        Some(ArgValue::Count(t)) => Some(*t),
        _ => None,
    }
}

/// The seed value of a flag, where it is set.
pub open spec fn seed_value(s: Settings, flag: Seq<char>) -> Option<u64> {
    match last_value(s, flag) {
        Some(Value::Seed(v)) => Some(v),
        _ => None,
    }
}

pub fn seed_set(s: &Vec<Setting>, flag: &str) -> (r: Option<u64>)
    ensures
        r == seed_value(settings(s@), flag@),
{
    match last_setting(s, flag) {
        Some(ArgValue::Seed(t)) => Some(*t),
        _ => None,
    }
}

/// The device value of a flag, where it is set.
pub open spec fn device_value(s: Settings, flag: Seq<char>) -> Option<DevicePreference> {
    match last_value(s, flag) {
        Some(Value::Device(v)) => Some(v),
        _ => None,
    }
}

pub fn device_set(s: &Vec<Setting>, flag: &str) -> (r: Option<DevicePreference>)
    ensures
        r == device_value(settings(s@), flag@),
{
    match last_setting(s, flag) {
        Some(ArgValue::Device(t)) => Some(*t),
        _ => None,
    }
}

/// The truth value of a flag, where it is set.
pub open spec fn truth_value(s: Settings, flag: Seq<char>) -> Option<bool> {
    match last_value(s, flag) {
        Some(Value::Truth(v)) => Some(v),
        _ => None,
    }
}

pub fn truth_set(s: &Vec<Setting>, flag: &str) -> (r: Option<bool>)
    ensures
        r == truth_value(settings(s@), flag@),
{
    match last_setting(s, flag) {
        Some(ArgValue::Truth(t)) => Some(*t),
        _ => None,
    }
}

/// The list of numbers of a flag, where it is set.
pub open spec fn numbers_value(s: Settings, flag: Seq<char>) -> Option<Seq<Real64>> {
    match last_value(s, flag) {
        Some(Value::Numbers(v)) => Some(v),
        _ => None,
    }
}

pub fn numbers_set(s: &Vec<Setting>, flag: &str) -> (r: Option<Vec<Real64>>)
    ensures
        match r {
            Some(v) => numbers_value(settings(s@), flag@) == Some(v@),
            None => numbers_value(settings(s@), flag@) is None,
        },
{
    match last_setting(s, flag) {
        Some(ArgValue::Numbers(t)) => {
            let mut out: Vec<Real64> = Vec::new();
            let mut i: usize = 0;
            while i < t.len()
                invariant
                    i <= t@.len(),
                    out@ =~= t@.take(i as int),
                decreases t@.len() - i,
            {
                out.push(t[i]);
                i = i + 1;
            }
            assert(t@.take(i as int) =~= t@);
            Some(out)
        },
        _ => None,
    }
}

/// The number of a flag, or the one with the default pattern.
pub open spec fn number_or(s: Settings, flag: Seq<char>, bits: u64) -> Real64 {
    match number_value(s, flag) {
        Some(x) => x,
        None => Real64 { bits },
    }
}

pub fn number_set_or(s: &Vec<Setting>, flag: &str, bits: u64) -> (r: Real64)
    ensures
        r == number_or(settings(s@), flag@, bits),
{
    match number_set(s, flag) {
        Some(x) => x,
        None => Real64 { bits },
    }
}

/// The count of a flag, or the default.
pub open spec fn count_or(s: Settings, flag: Seq<char>, default_val: usize) -> usize {
    match count_value(s, flag) {
        Some(n) => n,
        None => default_val,
    }
}

pub fn count_set_or(s: &Vec<Setting>, flag: &str, default_val: usize) -> (r: usize)
    ensures
        r == count_or(settings(s@), flag@, default_val),
{
    match count_set(s, flag) {
        Some(n) => n,
        None => default_val,
    }
}

/// The truth value of a flag; false where it is not set.
pub open spec fn is_on(s: Settings, flag: Seq<char>) -> bool {
    truth_value(s, flag) == Some(true)
}

pub fn switched_on(s: &Vec<Setting>, flag: &str) -> (r: bool)
    ensures
        r == is_on(settings(s@), flag@),
{
    match truth_set(s, flag) {
        Some(b) => b,
        None => false,
    }
}

/// A positive number other than infinity.
pub open spec fn positive_finite(x: Real64) -> bool {
    x.positive() && x.finite()
}

pub fn is_positive_finite(x: Real64) -> (r: bool)
    ensures
        r == positive_finite(x),
{
    x.is_positive() && x.is_finite()
}

/// A number from zero on, other than infinity.
pub open spec fn nonnegative_finite(x: Real64) -> bool {
    x.finite() && !x.less(Real64 { bits: 0 })
}

pub fn is_nonnegative_finite(x: Real64) -> (r: bool)
    ensures
        r == nonnegative_finite(x),
{
    x.is_finite() && !x.lt(Real64 { bits: 0 })
}

/// Whether help is asked for.
pub open spec fn asks_help(args: Seq<Seq<char>>) -> bool {
    exists|i: int| 0 <= i < args.len() && (#[trigger] args[i] == "--help"@ || args[i] == "-h"@)
}

pub fn wants_help(args: &Vec<String>) -> (r: bool)
    ensures
        r == asks_help(texts(args@)),
{
    let ghost all = texts(args@);
    let mut i: usize = 0;
    while i < args.len()
        invariant
            i <= args@.len(),
            all == texts(args@),
            forall|k: int| 0 <= k < i ==> #[trigger] all[k] != "--help"@ && all[k] != "-h"@,
        decreases args@.len() - i,
    {
        assert(all[i as int] == args@[i as int]@);
        if str_eq(args[i].as_str(), "--help") || str_eq(args[i].as_str(), "-h") {
            return true;
        }
        i = i + 1;
    }
    false
}

// ── What the arguments say ──────────────────────────────────────────────────

/// The first flag of a table with a name is found; none where no flag has it.
pub proof fn law_first_flag_of_a_name(table: Seq<Flag>, name: Seq<char>)
    ensures
        match flag_at(table, name) {
            Some(k) => 0 <= k < table.len() && table[k].name@ == name && forall|j: int|
                0 <= j < k ==> (#[trigger] table[j]).name@ != name,
            None => forall|j: int| 0 <= j < table.len() ==> (#[trigger] table[j]).name@ != name,
        },
    decreases table.len(),
{
    if table.len() > 0 {
        let rest = table.drop_last();
        law_first_flag_of_a_name(rest, name);
        match flag_at(rest, name) {
            Some(k) => {
                assert(rest[k] == table[k]);
                assert forall|j: int| 0 <= j < k implies (#[trigger] table[j]).name@ != name by {
                    assert(rest[j] == table[j]);
                }
            },
            None => {
                assert forall|j: int| 0 <= j < rest.len() implies (#[trigger] table[j]).name@
                    != name by {
                    assert(rest[j] == table[j]);
                }
            },
        }
    }
}

/// Settings behind those that are there already, or the message of a fault.
pub open spec fn behind(first: Settings, rest: Result<Settings, Seq<char>>) -> Result<
    Settings,
    Seq<char>,
> {
    match rest {
        Ok(s) => Ok(first + s),
        Err(e) => Err(e),
    }
}

/// Arguments are read in turn. The first must name a flag. A bare flag stands
/// alone; a switch takes `true` or `false` where one follows and is on where
/// neither does; any other flag takes the argument behind it, which there must
/// be and which must be a value of its kind. What follows is read as if it stood
/// alone.
pub proof fn law_arguments_are_read_in_turn(
    cmd: Command,
    table: Seq<Flag>,
    m: NumberModel,
    m32: SingleModel,
    args: Seq<Seq<char>>,
)
    requires
        args.len() > 0,
    ensures
        parsed(cmd, table, m, m32, Seq::empty()) == Ok::<Settings, Seq<char>>(Seq::empty()),
        flag_at(table, args[0]) is None ==> parsed(cmd, table, m, m32, args) == Err::<
            Settings,
            Seq<char>,
        >(unknown_message(cmd, args[0])),
        flag_at(table, args[0]) matches Some(k) ==> ({
            let flag = table[k];
            let all = parsed(cmd, table, m, m32, args);
            let follows = args.len() > 1;
            let one = parsed(cmd, table, m, m32, args.skip(1));
            let two = parsed(cmd, table, m, m32, args.skip(2));
            let on = seq![(flag.name@, Value::Truth(true))];
            let off = seq![(flag.name@, Value::Truth(false))];
            match flag.kind {
                Kind::Bare => all == behind(on, one),
                Kind::Switch => {
                    &&& follows && args[1] == "true"@ ==> all == behind(on, two)
                    &&& follows && args[1] == "false"@ && args[1] != "true"@ ==> all == behind(
                        off,
                        two,
                    )
                    &&& !follows || (args[1] != "true"@ && args[1] != "false"@) ==> all == behind(
                        on,
                        one,
                    )
                },
                _ => {
                    &&& !follows ==> all == Err::<Settings, Seq<char>>(
                        missing_message(cmd, flag.name@),
                    )
                    &&& follows ==> match value_of(cmd, flag.kind, m, m32, flag.name@, args[1]) {
                        Err(e) => all == Err::<Settings, Seq<char>>(e),
                        Ok(v) => all == behind(seq![(flag.name@, v)], two),
                    }
                },
            }
        }),
{
    let none = Seq::<(Seq<char>, Value)>::empty();
    lemma_scanned(cmd, table, m, m32, args, 0, none);
    if flag_at(table, args[0]) is Some {
        let name = table[flag_at(table, args[0]).unwrap()].name@;
        assert forall|v: Value| #[trigger] none.push((name, v)) =~= seq![(name, v)] by {}
        if args.len() > 1 {
            assert forall|v: Value|
                scanned(cmd, table, m, m32, args, 2, #[trigger] none.push((name, v))) == behind(
                    none.push((name, v)),
                    parsed(cmd, table, m, m32, args.skip(2)),
                ) by {
                lemma_scanned(cmd, table, m, m32, args, 2, none.push((name, v)));
            }
        }
        assert forall|v: Value|
            scanned(cmd, table, m, m32, args, 1, #[trigger] none.push((name, v))) == behind(
                none.push((name, v)),
                parsed(cmd, table, m, m32, args.skip(1)),
            ) by {
            lemma_scanned(cmd, table, m, m32, args, 1, none.push((name, v)));
        }
    }
}

proof fn lemma_scanned(
    cmd: Command,
    table: Seq<Flag>,
    m: NumberModel,
    m32: SingleModel,
    args: Seq<Seq<char>>,
    i: int,
    found: Settings,
)
    requires
        0 <= i <= args.len(),
    ensures
        scanned(cmd, table, m, m32, args, i, found) == behind(
            found,
            parsed(cmd, table, m, m32, args.skip(i)),
        ),
    decreases args.len() - i,
{
    let t = args.skip(i);
    let none = Seq::<(Seq<char>, Value)>::empty();
    if i == args.len() {
        assert(found + none =~= found);
    } else {
        assert(t[0] == args[i]);
        if i + 1 < args.len() {
            assert(t[1] == args[i + 1]);
        }
        if flag_at(table, args[i]) is Some {
            let name = table[flag_at(table, args[i]).unwrap()].name@;
            assert forall|v: Value|
                scanned(cmd, table, m, m32, args, i + 1, #[trigger] found.push((name, v)))
                    == behind(
                    found,
                    scanned(cmd, table, m, m32, t, 1, none.push((name, v))),
                ) by {
                lemma_scanned(cmd, table, m, m32, args, i + 1, found.push((name, v)));
                lemma_scanned(cmd, table, m, m32, t, 1, none.push((name, v)));
                assert(t.skip(1) =~= args.skip(i + 1));
                lemma_behind(found, (name, v), parsed(cmd, table, m, m32, t.skip(1)));
            }
            if i + 1 < args.len() {
                assert forall|v: Value|
                    scanned(cmd, table, m, m32, args, i + 2, #[trigger] found.push((name, v)))
                        == behind(
                        found,
                        scanned(cmd, table, m, m32, t, 2, none.push((name, v))),
                    ) by {
                    lemma_scanned(cmd, table, m, m32, args, i + 2, found.push((name, v)));
                    lemma_scanned(cmd, table, m, m32, t, 2, none.push((name, v)));
                    assert(t.skip(2) =~= args.skip(i + 2));
                    lemma_behind(found, (name, v), parsed(cmd, table, m, m32, t.skip(2)));
                }
            }
        }
    }
}

proof fn lemma_behind(found: Settings, x: (Seq<char>, Value), rest: Result<Settings, Seq<char>>)
    ensures
        behind(found.push(x), rest) == behind(
            found,
            behind(Seq::<(Seq<char>, Value)>::empty().push(x), rest),
        ),
{
    if rest is Ok {
        let none = Seq::<(Seq<char>, Value)>::empty();
        assert(found.push(x) + rest->Ok_0 =~= found + (none.push(x) + rest->Ok_0));
    }
}

/// A value is accepted exactly where it is of its flag's kind: any text; what
/// reads as a number; a list all of whose pieces do; a whole number that the
/// machine can hold, from 1 on where it must be positive; one of three devices.
pub proof fn law_values_are_of_their_kind(
    cmd: Command,
    m: NumberModel,
    m32: SingleModel,
    flag: Seq<char>,
    s: Seq<char>,
)
    ensures
        value_of(cmd, Kind::Text, m, m32, flag, s) == Ok::<Value, Seq<char>>(Value::Text(s)),
        value_of(cmd, Kind::Number, m, m32, flag, s) is Ok <==> m(s) is Some,
        m(s) matches Some(x) ==> value_of(cmd, Kind::Number, m, m32, flag, s) == Ok::<
            Value,
            Seq<char>,
        >(Value::Number(x)),
        value_of(cmd, Kind::Single, m, m32, flag, s) is Ok <==> m32(s) is Some,
        m32(s) matches Some(x) ==> value_of(cmd, Kind::Single, m, m32, flag, s) == Ok::<
            Value,
            Seq<char>,
        >(Value::Single(x)),
        value_of(cmd, Kind::Count, m, m32, flag, s) is Ok <==> unsigned_up_to(
            s,
            usize::MAX as nat,
        ) is Some,
        value_of(cmd, Kind::Positive, m, m32, flag, s) is Ok <==> (unsigned_up_to(
            s,
            usize::MAX as nat,
        ) is Some && unsigned_up_to(s, usize::MAX as nat).unwrap() >= 1),
        value_of(cmd, Kind::Positive, m, m32, flag, s) is Ok ==> value_of(
            cmd,
            Kind::Positive,
            m,
            m32,
            flag,
            s,
        ) == value_of(cmd, Kind::Count, m, m32, flag, s),
        unsigned_up_to(s, usize::MAX as nat) matches Some(n) ==> value_of(
            cmd,
            Kind::Count,
            m,
            m32,
            flag,
            s,
        ) == Ok::<Value, Seq<char>>(Value::Count(n as usize)),
        value_of(cmd, Kind::Seed, m, m32, flag, s) is Ok <==> unsigned_up_to(
            s,
            u64::MAX as nat,
        ) is Some,
        unsigned_up_to(s, u64::MAX as nat) matches Some(n) ==> value_of(
            cmd,
            Kind::Seed,
            m,
            m32,
            flag,
            s,
        ) == Ok::<Value, Seq<char>>(Value::Seed(n as u64)),
        value_of(cmd, Kind::Device, m, m32, flag, s) is Ok <==> s == "auto"@ || s == "cpu"@ || s
            == "gpu"@,
        s == "auto"@ ==> value_of(cmd, Kind::Device, m, m32, flag, s) == Ok::<Value, Seq<char>>(
            Value::Device(DevicePreference::Auto),
        ),
        s == "cpu"@ ==> value_of(cmd, Kind::Device, m, m32, flag, s) == Ok::<Value, Seq<char>>(
            Value::Device(DevicePreference::Cpu),
        ),
        s == "gpu"@ ==> value_of(cmd, Kind::Device, m, m32, flag, s) == Ok::<Value, Seq<char>>(
            Value::Device(DevicePreference::Gpu),
        ),
{
    reveal_strlit("auto");
    reveal_strlit("cpu");
    reveal_strlit("gpu");
    assert("cpu"@[0] != "gpu"@[0]);
    assert("auto"@.len() == 4);
}

/// A list of numbers is read where each piece is a number, and holds them in
/// order; else the first piece that is none is named.
pub proof fn law_lists_are_read_whole(m: NumberModel, parts: Seq<Seq<char>>)
    ensures
        match numbers_of(m, parts) {
            Ok(v) => v.len() == parts.len() && forall|i: int|
                0 <= i < parts.len() ==> m(#[trigger] parts[i]) == Some(v[i]),
            Err(p) => exists|k: int|
                0 <= k < parts.len() && #[trigger] parts[k] == p && m(parts[k]) is None
                    && forall|i: int| 0 <= i < k ==> m(#[trigger] parts[i]) is Some,
        },
    decreases parts.len(),
{
    if parts.len() > 0 {
        let rest = parts.drop_last();
        law_lists_are_read_whole(m, rest);
        match numbers_of(m, rest) {
            Ok(v) => {
                assert forall|i: int| 0 <= i < rest.len() implies m(#[trigger] parts[i]) == Some(
                    v[i],
                ) by {
                    assert(rest[i] == parts[i]);
                }
                assert(parts[parts.len() - 1] == parts.last());
            },
            Err(p) => {
                let k = choose|k: int|
                    0 <= k < rest.len() && #[trigger] rest[k] == p && m(rest[k]) is None
                        && forall|i: int| 0 <= i < k ==> m(#[trigger] rest[i]) is Some;
                assert(parts[k] == p);
                assert forall|i: int| 0 <= i < k implies m(#[trigger] parts[i]) is Some by {
                    assert(rest[i] == parts[i]);
                }
            },
        }
    }
}

/// Where a flag is set more than once, the last time counts.
pub proof fn law_last_setting_counts(s: Settings, flag: Seq<char>, at: int)
    requires
        0 <= at < s.len(),
        s[at].0 == flag,
        forall|j: int| at < j < s.len() ==> (#[trigger] s[j]).0 != flag,
    ensures
        last_value(s, flag) == Some(s[at].1),
    decreases s.len(),
{
    if at < s.len() - 1 {
        let rest = s.drop_last();
        assert(s[s.len() - 1].0 != flag);
        assert forall|j: int| at < j < rest.len() implies (#[trigger] rest[j]).0 != flag by {
            assert(rest[j] == s[j]);
        }
        law_last_setting_counts(rest, flag, at);
    }
}

/// A flag that is not set has no value.
pub proof fn law_flags_not_set(s: Settings, flag: Seq<char>)
    requires
        forall|j: int| 0 <= j < s.len() ==> (#[trigger] s[j]).0 != flag,
    ensures
        last_value(s, flag) is None,
        text_value(s, flag) is None,
        number_value(s, flag) is None,
        count_value(s, flag) is None,
        !is_on(s, flag),
    decreases s.len(),
{
    if s.len() > 0 {
        let rest = s.drop_last();
        assert(s[s.len() - 1].0 != flag);
        assert forall|j: int| 0 <= j < rest.len() implies (#[trigger] rest[j]).0 != flag by {
            assert(rest[j] == s[j]);
        }
        law_flags_not_set(rest, flag);
    }
}

/// A flag that may be given more than once has all its texts, in order. The
/// returned sequence gives the place of each.
pub proof fn law_repeated_flags_add_up(s: Settings, flag: Seq<char>) -> (at: Seq<int>)
    ensures
        selects(at, |i: int| s[i].0 == flag && s[i].1 is Text, s.len() as int),
        all_texts(s, flag).len() == at.len(),
        forall|j: int|
            0 <= j < at.len() ==> s[at[j]].1 == Value::Text(#[trigger] all_texts(s, flag)[j]),
    decreases s.len(),
{
    let n = s.len() as int;
    let p = |i: int| s[i].0 == flag && s[i].1 is Text;
    if n == 0 {
        Seq::<int>::empty()
    } else {
        let rest = s.drop_last();
        let before = law_repeated_flags_add_up(rest, flag);
        assert(selects(before, p, n - 1)) by {
            assert forall|i: int| #[trigger] before.contains(i) <==> 0 <= i < n - 1 && p(i) by {
                if 0 <= i < n - 1 {
                    assert(rest[i] == s[i]);
                }
            }
        }
        assert forall|j: int| 0 <= j < before.len() implies s[before[j]].1 == Value::Text(
            #[trigger] all_texts(rest, flag)[j],
        ) by {
            assert(before.contains(before[j]));
            assert(rest[before[j]] == s[before[j]]);
        }
        lemma_selects_step(before, p, n - 1);
        if p(n - 1) {
            before.push(n - 1)
        } else {
            before
        }
    }
}

/// Whether a flag is not set.
pub open spec fn unset(s: Settings, flag: Seq<char>) -> bool {
    forall|j: int| 0 <= j < s.len() ==> (#[trigger] s[j]).0 != flag
}

/// A flag that is not set leaves the default.
pub proof fn law_defaults_hold_where_nothing_is_set(
    s: Settings,
    flag: Seq<char>,
    bits: u64,
    n: usize,
)
    requires
        unset(s, flag),
    ensures
        number_or(s, flag, bits).bits == bits,
        count_or(s, flag, n) == n,
        single_value(s, flag) is None,
        seed_value(s, flag) is None,
        device_value(s, flag) is None,
        numbers_value(s, flag) is None,
        count_value(s, flag) is None,
        text_value(s, flag) is None,
        !is_on(s, flag),
{
    law_flags_not_set(s, flag);
}

/// The first demand that is not met is named, if there is one.
pub open spec fn names_first_unmet(
    fault: Option<Seq<char>>,
    demands: Seq<(bool, Seq<char>)>,
) -> bool {
    match fault {
        None => forall|k: int| 0 <= k < demands.len() ==> (#[trigger] demands[k]).0,
        Some(m) => exists|k: int|
            0 <= k < demands.len() && !(#[trigger] demands[k]).0 && demands[k].1 == m && forall|
                j: int,
            |
                0 <= j < k ==> (#[trigger] demands[j]).0,
    }
}

/// A number is positive and finite where its bit pattern lies between those of
/// zero and infinity. Zero itself, of either sign, is the one number more that is
/// finite and not below zero.
pub proof fn law_finite_patterns(x: Real64)
    ensures
        positive_finite(x) <==> 0 < x.bits < 0x7FF0_0000_0000_0000,
        nonnegative_finite(x) <==> positive_finite(x) || x.bits == 0 || x.bits
            == 0x8000_0000_0000_0000,
{
}

/// What is read of a flag is what stands in its last setting, where that is of
/// the kind asked for.
pub proof fn law_last_setting_is_read(s: Settings, flag: Seq<char>, at: int)
    requires
        0 <= at < s.len(),
        s[at].0 == flag,
        forall|j: int| at < j < s.len() ==> (#[trigger] s[j]).0 != flag,
    ensures
        s[at].1 matches Value::Text(v) ==> text_value(s, flag) == Some(v),
        s[at].1 matches Value::Number(v) ==> number_value(s, flag) == Some(v),
        s[at].1 matches Value::Single(v) ==> single_value(s, flag) == Some(v),
        s[at].1 matches Value::Count(v) ==> count_value(s, flag) == Some(v),
        s[at].1 matches Value::Seed(v) ==> seed_value(s, flag) == Some(v),
        s[at].1 matches Value::Numbers(v) ==> numbers_value(s, flag) == Some(v),
        s[at].1 matches Value::Truth(v) ==> truth_value(s, flag) == Some(v) && is_on(s, flag) == v,
        text_value(s, flag) is Some ==> s[at].1 is Text,
        number_value(s, flag) is Some ==> s[at].1 is Number,
        single_value(s, flag) is Some ==> s[at].1 is Single,
        count_value(s, flag) is Some ==> s[at].1 is Count,
        seed_value(s, flag) is Some ==> s[at].1 is Seed,
        numbers_value(s, flag) is Some ==> s[at].1 is Numbers,
        truth_value(s, flag) is Some ==> s[at].1 is Truth,
{
    law_last_setting_counts(s, flag, at);
}

} // verus!
