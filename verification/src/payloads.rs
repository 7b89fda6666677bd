//! Event payloads delivered to whatever consumes a comparison.

use vstd::prelude::*;

verus! {

/// One line that occurs more often in its file than in the other.
#[derive(Clone, Debug)]
pub struct UniqueLinePayload {
    /// Which input file owns the line: `"A"` or `"B"`.
    pub file: String,
    /// 1-based line number of the representative occurrence; 0 when line
    /// numbering is off.
    pub line_number: usize,
    /// The line's text, with `\n(x<count>)` appended when the excess is
    /// more than one.
    pub text: String,
}

/// A completed processing step and how long it took.
#[derive(Clone, Debug)]
pub struct StepDetailPayload {
    pub step: String,
    pub duration_ms: u128,
}

/// The final event of a successful comparison.
#[derive(Clone, Debug)]
pub struct ComparisonFinishedPayload {}

/// A line with its position, as shown in a diff view.
#[derive(Clone, Debug)]
pub struct DiffLine {
    pub line_number: usize,
    pub text: String,
}

/// A pair of corresponding lines that differ between the files.
#[derive(Clone, Debug)]
pub struct ModifiedLine {
    pub line_a: DiffLine,
    pub line_b: DiffLine,
}

} // verus!
