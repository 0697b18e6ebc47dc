use vstd::prelude::*;

use crate::document_builder::owned;

verus! {

/// The input name that reads stdin and writes stdout.
pub const STDIN: &'static str = "-";

/// Stands in for `-` while the argument parser runs, which reads a bare
/// `-` as an option; no real argument holds a NUL byte.
pub const PLACEHOLDER: &'static str = "\0";

/// Whether stderr diagnostics get ANSI colors: never with `--no-color`,
/// with `NO_COLOR` set to a non-empty value, or off a terminal.
/// `no_color_env` is `NO_COLOR`'s value, or [`None`] when it is unset.
pub fn color_enabled(
    no_color_flag: bool,
    no_color_env: Option<&str>,
    stderr_is_terminal: bool,
) -> (enabled: bool)
    ensures
        enabled == (!no_color_flag && (no_color_env matches Some(value) ==> value@.len() == 0)
            && stderr_is_terminal),
{
    let env_allows = match no_color_env {
        None => true,
        Some(value) => value.is_empty(),
    };
    !no_color_flag && env_allows && stderr_is_terminal
}

/// The index of the first `--` among `args`, or their number when there is
/// none: the arguments before it may be options.
pub open spec fn options_end(args: Seq<Seq<char>>) -> int
    decreases args.len(),
{
    if args.len() == 0 {
        0
    } else if options_end(args.drop_last()) < args.len() - 1 {
        options_end(args.drop_last())
    } else if args.last() == seq!['-', '-'] {
        args.len() - 1
    } else {
        args.len() as int
    }
}

proof fn lemma_options_end_bound(args: Seq<Seq<char>>)
    ensures
        0 <= options_end(args) <= args.len(),
    decreases args.len(),
{
    if args.len() > 0 {
        lemma_options_end_bound(args.drop_last());
    }
}

/// The views of `args`.
pub open spec fn views(args: Seq<String>) -> Seq<Seq<char>> {
    args.map_values(|arg: String| arg@)
}

/// `args` with every `-` before the first `--` replaced by the
/// placeholder, so that the inputs keep their order and a `-` after an
/// option that takes a value (`--config -`) stays that option's value.
pub fn protect_stdin(args: &Vec<String>) -> (protected: Vec<String>)
    ensures
        protected@.len() == args@.len(),
        forall|i: int|
            0 <= i < args@.len() ==> (#[trigger] protected@[i])@ == if i < options_end(views(args@))
                && args@[i]@ == seq!['-'] {
                seq!['\0']
            } else {
                args@[i]@
            },
{
    let dash = owned(STDIN);
    let separator = owned("--");
    proof {
        reveal_strlit("-");
        reveal_strlit("--");
        reveal_strlit("\0");
        assert(dash@ =~= seq!['-']);
        assert(separator@ =~= seq!['-', '-']);
        assert("\0"@ =~= seq!['\0']);
    }
    let mut protected: Vec<String> = Vec::new();
    let mut in_options = true;
    let mut i: usize = 0;
    while i < args.len()
        invariant
            i <= args@.len(),
            dash@ == seq!['-'],
            separator@ == seq!['-', '-'],
            protected@.len() == i,
            in_options == (options_end(views(args@.take(i as int))) == i),
            forall|j: int|
                0 <= j < i ==> (#[trigger] protected@[j])@ == if j < options_end(
                    views(args@.take(i as int)),
                ) && args@[j]@ == seq!['-'] {
                    seq!['\0']
                } else {
                    args@[j]@
                },
        decreases args@.len() - i,
    {
        let ghost before = views(args@.take(i as int));
        let ghost after = views(args@.take(i + 1));
        proof {
            assert(after.drop_last() =~= before);
            assert(after.last() == args@[i as int]@);
            lemma_options_end_bound(before);
            assert(options_end(after) == if options_end(before) < i {
                options_end(before)
            } else if after.last() == seq!['-', '-'] {
                i as int
            } else {
                i + 1
            });
        }
        if in_options && args[i].eq(&separator) {
            in_options = false;
        }
        let ghost old_protected = protected@;
        if in_options && args[i].eq(&dash) {
            let placeholder = owned("\0");
            protected.push(placeholder);
        } else {
            protected.push(owned(args[i].as_str()));
        }
        proof {
            reveal_strlit("\0");
            assert("\0"@ =~= seq!['\0']);
            assert forall|j: int| 0 <= j < i + 1 implies (#[trigger] protected@[j])@ == if j
                < options_end(after) && args@[j]@ == seq!['-'] {
                seq!['\0']
            } else {
                args@[j]@
            } by {
                if j < i {
                    assert(protected@[j] == old_protected[j]);
                    assert((j < options_end(after)) == (j < options_end(before)));
                }
            }
            assert(views(args@.take(i + 1)) == after);
        }
        i = i + 1;
    }
    proof {
        assert(args@.take(args@.len() as int) =~= args@);
    }
    protected
}

/// `path`, with the placeholder mapped back to `-`.
pub fn restore_stdin(path: String) -> (restored: String)
    ensures
        restored@ == if path@ == seq!['\0'] {
            seq!['-']
        } else {
            path@
        },
{
    let placeholder = owned(PLACEHOLDER);
    proof {
        reveal_strlit("\0");
        reveal_strlit("-");
        assert(placeholder@ =~= seq!['\0']);
        assert("-"@ =~= seq!['-']);
    }
    if path.eq(&placeholder) {
        owned(STDIN)
    } else {
        path
    }
}

/// Where the formatted text goes.
#[derive(Clone, Copy, PartialEq, Eq, Debug, Structural)]
pub enum Mode {
    /// Formatted text to stdout, one input only.
    Stdout,
    /// Unresolved document tree to stdout, one input only.
    Debug,
    /// Rewrite the inputs.
    InPlace,
    /// Only report which inputs would change.
    Check,
}

/// A command line that asks for something impossible.
#[derive(Clone, Copy, PartialEq, Eq, Debug, Structural)]
pub enum UsageError {
    CheckWithInPlace,
    DebugWithWrite,
    NoInputs,
    OneInputToStdout,
}

impl UsageError {
    /// The message shown for the error.
    pub fn message(&self) -> (text: &'static str)
        ensures
            text@ == match self {
                UsageError::CheckWithInPlace => "--check and --in-place are mutually exclusive"@,
                UsageError::DebugWithWrite => "--debug prints to stdout and cannot be combined with --check or --in-place"@,
                UsageError::NoInputs => "no input files"@,
                UsageError::OneInputToStdout => "formatting to stdout takes exactly one input; use --check or --in-place for several"@,
            },
    {
        match self {
            UsageError::CheckWithInPlace => "--check and --in-place are mutually exclusive",
            UsageError::DebugWithWrite => "--debug prints to stdout and cannot be combined with --check or --in-place",
            UsageError::NoInputs => "no input files",
            UsageError::OneInputToStdout => "formatting to stdout takes exactly one input; use --check or --in-place for several",
        }
    }
}

/// The mode the flags select for `inputs` inputs, or why they select none.
pub open spec fn mode_for(check: bool, in_place: bool, debug: bool, inputs: int) -> Result<
    Mode,
    UsageError,
> {
    if check && in_place {
        Err(UsageError::CheckWithInPlace)
    } else if debug && (check || in_place) {
        Err(UsageError::DebugWithWrite)
    } else if inputs == 0 {
        Err(UsageError::NoInputs)
    } else if !check && !in_place && inputs > 1 {
        Err(UsageError::OneInputToStdout)
    } else if check {
        Ok(Mode::Check)
    } else if in_place {
        Ok(Mode::InPlace)
    } else if debug {
        Ok(Mode::Debug)
    } else {
        Ok(Mode::Stdout)
    }
}

/// Picks the mode from the `--check`, `--in-place` and `--debug` flags:
/// `--check` and `--in-place` exclude each other and `--debug`, there must
/// be an input, and printing to stdout takes exactly one.
pub fn choose_mode(check: bool, in_place: bool, debug: bool, inputs: usize) -> (mode: Result<
    Mode,
    UsageError,
>)
    ensures
        mode == mode_for(check, in_place, debug, inputs as int),
{
    if check && in_place {
        return Err(UsageError::CheckWithInPlace);
    }
    if debug && (check || in_place) {
        return Err(UsageError::DebugWithWrite);
    }
    if inputs == 0 {
        return Err(UsageError::NoInputs);
    }
    let mode = if check {
        Mode::Check
    } else if in_place {
        Mode::InPlace
    } else if debug {
        Mode::Debug
    } else {
        Mode::Stdout
    };
    if (mode == Mode::Stdout || mode == Mode::Debug) && inputs > 1 {
        return Err(UsageError::OneInputToStdout);
    }
    Ok(mode)
}

} // verus!
