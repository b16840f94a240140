use vstd::prelude::*;

verus! {

/// An immutable source location attached to every syntactic construct.
///
/// Carries no evaluation semantics: it is used only when an evaluation
/// failure is reported, so that the failing construct can be pointed at in
/// the original source. Lines and columns are 1-based.
#[derive(Clone, Copy, Debug, PartialEq, Eq, Structural)]
pub struct Span {
    pub file_id: usize,
    pub start_line: usize,
    pub start_col: usize,
    pub end_line: usize,
    pub end_col: usize,
}

} // verus!
