use vstd::prelude::*;
use crate::span::Span;
use crate::feature::UnstableFeature;

verus! {

/// The four evaluation failures. Each propagates up through the evaluation
/// call stack unchanged until it reaches the reporting boundary: the engine
/// never recovers from or suppresses one, it aborts the whole run on the
/// first encountered.
#[derive(Debug)]
pub enum EvalError {
    /// A gated feature was used without the process-wide opt-in. `message`
    /// is the feature's fixed instability message.
    Unstable { feature: UnstableFeature, message: String },
    /// A dependency cycle was found while computing a closure. `cycle_names`
    /// lists the names on the cycle in reference order: each names the next,
    /// and the last names the first.
    CyclicDependency { cycle_names: Vec<String> },
    /// A subprocess-capture expression's child process exited non-zero. The
    /// span is that of the capture expression as written in source, not of
    /// any assignment that transitively referenced it.
    BacktickFailed { exit_code: i32, span: Span },
    /// A reference names an identifier with no assignment in scope. The span
    /// is that of the referencing construct.
    UndefinedReference { name: String, span: Span },
}

impl EvalError {
    /// The fixed leading text of this error's diagnostic, without the
    /// variable parts (exit code, names, source excerpt), which the
    /// reporting layer renders from the fields.
    pub open spec fn spec_kind_message(self) -> Seq<char> {
        match self {
            EvalError::Unstable { .. } => "error: unstable feature"@,
            EvalError::CyclicDependency { .. } => "error: variable dependency cycle"@,
            EvalError::BacktickFailed { .. } => "error: Backtick failed with exit code"@,
            EvalError::UndefinedReference { .. } => "error: variable not defined"@,
        }
    }

    /// Renders the fixed leading text of this error's diagnostic.
    pub fn kind_message(&self) -> (r: String)
        ensures
            r@ == self.spec_kind_message(),
    {
        match self {
            EvalError::Unstable { .. } => String::from_str("error: unstable feature"),
            EvalError::CyclicDependency { .. } => String::from_str(
                "error: variable dependency cycle",
            ),
            EvalError::BacktickFailed { .. } => String::from_str(
                "error: Backtick failed with exit code",
            ),
            EvalError::UndefinedReference { .. } => String::from_str("error: variable not defined"),
        }
    }
}

} // verus!
