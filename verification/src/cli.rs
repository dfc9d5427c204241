//! The command line: the switch that shows everything and the switch
//! that sends the tree to a file.

use crate::text::same_text;
use vstd::prelude::*;

verus! {

/// What a run was asked to do.
#[derive(Debug, PartialEq, Eq)]
pub struct Config {
    /// Show hidden and ignored entries too.
    pub show_all: bool,
    /// The file to write the tree to, in place of the console.
    pub output: Option<String>,
}

/// The mathematical value of a `Config`.
pub struct ConfigView {
    pub show_all: bool,
    pub output: Option<Seq<char>>,
}

impl DeepView for Config {
    type V = ConfigView;

    open spec fn deep_view(&self) -> ConfigView {
        ConfigView { show_all: self.show_all, output: self.output.deep_view() }
    }
}

/// Why a command line was refused.
#[derive(Clone, Copy, Debug, PartialEq, Eq, Structural)]
pub enum UsageError {
    /// The output switch is the last argument: no path follows it.
    MissingOutputPath,
}

/// `-a` or `--all`.
pub open spec fn is_all_flag(arg: Seq<char>) -> bool {
    arg == seq!['-', 'a'] || arg == seq!['-', '-', 'a', 'l', 'l']
}

/// `-o` or `--output`.
pub open spec fn is_output_flag(arg: Seq<char>) -> bool {
    arg == seq!['-', 'o'] || arg == seq!['-', '-', 'o', 'u', 't', 'p', 'u', 't']
}

/// Whether one of `args` asks for everything to be shown.
pub open spec fn asks_all(args: Seq<Seq<char>>) -> bool {
    exists|i: int| 0 <= i < args.len() && is_all_flag(#[trigger] args[i])
}

/// The position of the first output switch in `args`, or the length of
/// `args` if there is none.
pub open spec fn output_flag_position(args: Seq<Seq<char>>) -> nat
    decreases args.len(),
{
    if args.len() == 0 || is_output_flag(args.first()) {
        0
    } else {
        1 + output_flag_position(args.drop_first())
    }
}

/// What the arguments `args` ask for. Every argument is looked at, the
/// switches wherever they stand. The first output switch takes the
/// argument behind it as the path, whatever that argument is.
pub open spec fn config_of(args: Seq<Seq<char>>) -> Result<ConfigView, UsageError> {
    let at: int = output_flag_position(args) as int;
    if at >= args.len() {
        Ok(ConfigView { show_all: asks_all(args), output: None })
    } else if at + 1 < args.len() {
        Ok(ConfigView { show_all: asks_all(args), output: Some(args[at + 1]) })
    } else {
        Err(UsageError::MissingOutputPath)
    }
}

/// The first output switch stands where no switch stands before it.
pub proof fn lemma_output_flag_position(args: Seq<Seq<char>>, at: int)
    requires
        0 <= at <= args.len(),
        forall|i: int| 0 <= i < at ==> !is_output_flag(#[trigger] args[i]),
        at < args.len() ==> is_output_flag(args[at]),
    ensures
        output_flag_position(args) == at,
    decreases at,
{
    if at > 0 {
        let rest = args.drop_first();
        assert forall|i: int| 0 <= i < at - 1 implies !is_output_flag(#[trigger] rest[i]) by {
            assert(rest[i] == args[i + 1]);
        }
        lemma_output_flag_position(rest, at - 1);
    }
}

/// Whether `arg` is `-a` or `--all`.
pub fn is_all_switch(arg: &str) -> (is: bool)
    ensures
        is == is_all_flag(arg@),
{
    proof {
        reveal_strlit("-a");
        reveal_strlit("--all");
        assert("-a"@ =~= seq!['-', 'a']);
        assert("--all"@ =~= seq!['-', '-', 'a', 'l', 'l']);
    }
    same_text(arg, "-a") || same_text(arg, "--all")
}

/// Whether `arg` is `-o` or `--output`.
pub fn is_output_switch(arg: &str) -> (is: bool)
    ensures
        is == is_output_flag(arg@),
{
    proof {
        reveal_strlit("-o");
        reveal_strlit("--output");
        assert("-o"@ =~= seq!['-', 'o']);
        assert("--output"@ =~= seq!['-', '-', 'o', 'u', 't', 'p', 'u', 't']);
    }
    same_text(arg, "-o") || same_text(arg, "--output")
}

/// Reads the switches from the arguments of the process.
///
/// The result is an error exactly if the first output switch is the
/// last argument.
pub fn parse_args(args: &[String]) -> (parsed: Result<Config, UsageError>)
    ensures
        match parsed {
            Ok(config) => config_of(args.deep_view()) == Ok::<ConfigView, UsageError>(
                config.deep_view(),
            ),
            Err(error) => config_of(args.deep_view()) == Err::<ConfigView, UsageError>(error),
        },
{
    let ghost views = args.deep_view();
    let mut show_all = false;
    let mut i: usize = 0;
    while i < args.len()
        invariant
            i <= args@.len(),
            views == args.deep_view(),
            show_all == exists|j: int| 0 <= j < i && is_all_flag(#[trigger] views[j]),
        decreases args.len() - i,
    {
        let hit = is_all_switch(args[i].as_str());
        assert(views[i as int] == args[i as int]@);
        if hit {
            show_all = true;
        }
        i += 1;
    }
    let mut at: usize = 0;
    while at < args.len() && !is_output_switch(args[at].as_str())
        invariant
            at <= args@.len(),
            views == args.deep_view(),
            forall|j: int| 0 <= j < at ==> !is_output_flag(#[trigger] views[j]),
        decreases args.len() - at,
    {
        at += 1;
    }
    proof {
        lemma_output_flag_position(views, at as int);
    }
    if at >= args.len() {
        Ok(Config { show_all, output: None })
    } else if at + 1 < args.len() {
        let path = args[at + 1].clone();
        Ok(Config { show_all, output: Some(path) })
    } else {
        Err(UsageError::MissingOutputPath)
    }
}

} // verus!
