use std::ops::ControlFlow;
use vstd::prelude::*;

use crate::cli::Mode;
use crate::format::FormatError;

verus! {

/// Exit codes, ordered by severity: a run over several inputs exits with
/// its worst outcome.
#[derive(Clone, Copy, PartialEq, Eq, Debug, Structural)]
pub enum Exit {
    /// Formatted, or already formatted.
    Clean,
    /// `--check` found a file that would change.
    Unformatted,
    /// Usage, IO, or config error.
    Failure,
    /// An input does not parse.
    ParseError,
    /// An input contains a construct that cannot be formatted yet.
    Unsupported,
}

impl Exit {
    /// The process exit code.
    pub open spec fn spec_code(self) -> u8 {
        match self {
            Exit::Clean => 0,
            Exit::Unformatted => 1,
            Exit::Failure => 2,
            Exit::ParseError => 3,
            Exit::Unsupported => 4,
        }
    }

    /// The process exit code.
    pub fn code(self) -> (code: u8)
        ensures
            code == self.spec_code(),
    {
        match self {
            Exit::Clean => 0,
            Exit::Unformatted => 1,
            Exit::Failure => 2,
            Exit::ParseError => 3,
            Exit::Unsupported => 4,
        }
    }
}

/// The more severe of two outcomes.
pub open spec fn worse(a: Exit, b: Exit) -> Exit {
    if a.spec_code() < b.spec_code() {
        b
    } else {
        a
    }
}

/// The more severe of two outcomes.
pub fn worst(a: Exit, b: Exit) -> (w: Exit)
    ensures
        w == worse(a, b),
{
    if a.code() < b.code() {
        b
    } else {
        a
    }
}

/// One outcome folded into the worst so far: `Continue` carries on with
/// the new worst, `Break` ends the run with it.
pub open spec fn fold_outcome(worst_so_far: Exit, outcome: ControlFlow<Exit, Exit>) -> ControlFlow<
    Exit,
    Exit,
> {
    match outcome {
        ControlFlow::Continue(exit) => ControlFlow::Continue(worse(worst_so_far, exit)),
        ControlFlow::Break(exit) => ControlFlow::Break(worse(worst_so_far, exit)),
    }
}

/// The worst of a sequence of outcomes; `Break` ends the run early with
/// the outcomes so far folded in.
pub open spec fn worst_of_spec(outcomes: Seq<ControlFlow<Exit, Exit>>) -> ControlFlow<Exit, Exit>
    decreases outcomes.len(),
{
    if outcomes.len() == 0 {
        ControlFlow::Continue(Exit::Clean)
    } else {
        match worst_of_spec(outcomes.drop_last()) {
            ControlFlow::Continue(w) => fold_outcome(w, outcomes.last()),
            ControlFlow::Break(w) => ControlFlow::Break(w),
        }
    }
}

/// [`worst_of`] one step at a time, for a caller that produces the
/// outcomes as it goes and must stop at a `Break`.
pub fn fold_step(worst_so_far: Exit, outcome: ControlFlow<Exit, Exit>) -> (next: ControlFlow<
    Exit,
    Exit,
>)
    ensures
        next == fold_outcome(worst_so_far, outcome),
{
    match outcome {
        ControlFlow::Continue(exit) => ControlFlow::Continue(worst(worst_so_far, exit)),
        ControlFlow::Break(exit) => ControlFlow::Break(worst(worst_so_far, exit)),
    }
}

/// The worst of a sequence of outcomes; `Break` ends the run early with
/// the outcomes so far folded in.
pub fn worst_of(outcomes: &[ControlFlow<Exit, Exit>]) -> (result: ControlFlow<Exit, Exit>)
    ensures
        result == worst_of_spec(outcomes@),
{
    let mut worst_so_far = Exit::Clean;
    let mut i: usize = 0;
    while i < outcomes.len()
        invariant
            i <= outcomes@.len(),
            worst_of_spec(outcomes@.take(i as int)) == ControlFlow::<Exit, Exit>::Continue(worst_so_far),
        decreases outcomes@.len() - i,
    {
        proof {
            assert(outcomes@.take(i + 1).drop_last() == outcomes@.take(i as int));
        }
        let outcome = match &outcomes[i] {
            ControlFlow::Continue(exit) => ControlFlow::Continue(*exit),
            ControlFlow::Break(exit) => ControlFlow::Break(*exit),
        };
        match fold_step(worst_so_far, outcome) {
            ControlFlow::Continue(w) => {
                worst_so_far = w;
            },
            ControlFlow::Break(w) => {
                proof {
                    lemma_break_sticks(outcomes@, i as int + 1);
                }
                return ControlFlow::Break(w);
            },
        }
        i = i + 1;
    }
    proof {
        assert(outcomes@.take(i as int) == outcomes@);
    }
    ControlFlow::Continue(worst_so_far)
}

/// Once the fold has broken off, later outcomes change nothing.
pub proof fn lemma_break_sticks(outcomes: Seq<ControlFlow<Exit, Exit>>, n: int)
    requires
        0 <= n <= outcomes.len(),
        worst_of_spec(outcomes.take(n)) is Break,
    ensures
        worst_of_spec(outcomes) == worst_of_spec(outcomes.take(n)),
    decreases outcomes.len() - n,
{
    if n < outcomes.len() {
        assert(outcomes.take(n + 1).drop_last() == outcomes.take(n));
        lemma_break_sticks(outcomes, n + 1);
    } else {
        assert(outcomes.take(n) == outcomes);
    }
}

/// The severity an outcome carries.
pub open spec fn severity(outcome: ControlFlow<Exit, Exit>) -> int {
    match outcome {
        ControlFlow::Continue(e) => e.spec_code() as int,
        ControlFlow::Break(e) => e.spec_code() as int,
    }
}

/// The run's outcome is never milder than any outcome folded into it (one
/// that came before any `Break`).
pub proof fn law_worst_of_dominates(outcomes: Seq<ControlFlow<Exit, Exit>>, i: int)
    requires
        0 <= i < outcomes.len(),
        worst_of_spec(outcomes.take(i)) is Continue,
    ensures
        severity(worst_of_spec(outcomes)) >= severity(outcomes[i]),
{
    lemma_dominates_from(outcomes, i, outcomes.len() as int);
    assert(outcomes.take(outcomes.len() as int) == outcomes);
}

proof fn lemma_dominates_from(outcomes: Seq<ControlFlow<Exit, Exit>>, i: int, n: int)
    requires
        0 <= i < n <= outcomes.len(),
        worst_of_spec(outcomes.take(i)) is Continue,
    ensures
        severity(worst_of_spec(outcomes.take(n))) >= severity(outcomes[i]),
    decreases n - i,
{
    assert(outcomes.take(n).drop_last() == outcomes.take(n - 1));
    if n > i + 1 {
        lemma_dominates_from(outcomes, i, n - 1);
    }
}


/// What to do with a formatted input.
#[derive(Clone, Copy, PartialEq, Eq, Debug, Structural)]
pub enum Action {
    /// Write the text to stdout.
    Print,
    /// Report that the input would change.
    ReportUnformatted,
    /// Write the text back to the input file.
    Write,
    /// Nothing.
    Nothing,
}

/// What to do with the formatted text of an input, and the outcome:
/// stdout modes print; `--check` reports an input that would change;
/// `--in-place` rewrites a file only when its text changes, and prints
/// what came from stdin.
pub fn settle(mode: Mode, from_stdin: bool, changed: bool) -> (settled: (Action, Exit))
    ensures
        settled == match mode {
            Mode::Stdout | Mode::Debug => (Action::Print, Exit::Clean),
            Mode::Check => if changed {
                (Action::ReportUnformatted, Exit::Unformatted)
            } else {
                (Action::Nothing, Exit::Clean)
            },
            Mode::InPlace => if from_stdin {
                (Action::Print, Exit::Clean)
            } else if changed {
                (Action::Write, Exit::Clean)
            } else {
                (Action::Nothing, Exit::Clean)
            },
        },
{
    match mode {
        Mode::Stdout | Mode::Debug => (Action::Print, Exit::Clean),
        Mode::Check => if changed {
            (Action::ReportUnformatted, Exit::Unformatted)
        } else {
            (Action::Nothing, Exit::Clean)
        },
        Mode::InPlace => if from_stdin {
            (Action::Print, Exit::Clean)
        } else if changed {
            (Action::Write, Exit::Clean)
        } else {
            (Action::Nothing, Exit::Clean)
        },
    }
}

/// The outcome of an input that failed to format.
pub fn failure_exit(error: &FormatError) -> (exit: Exit)
    ensures
        exit == match error {
            FormatError::Parse { .. } => Exit::ParseError,
            FormatError::Unsupported { .. } => Exit::Unsupported,
            FormatError::Print => Exit::Failure,
        },
{
    match error {
        FormatError::Parse { .. } => Exit::ParseError,
        FormatError::Unsupported { .. } => Exit::Unsupported,
        FormatError::Print => Exit::Failure,
    }
}

} // verus!
