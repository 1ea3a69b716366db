use vstd::prelude::*;
use vstd::string::StrSliceExecFns;

verus! {

/// A line-numbered report of malformed input. A diagnostic never halts
/// a scan: the scanner records it and resumes at the next character.
/// Writing diagnostics to an error stream is the caller's business.
#[derive(Debug, PartialEq)]
pub struct Diagnostic {
    /// The 1-based line number the diagnostic refers to.
    pub line: u32,
    /// The human-readable message.
    pub message: String,
}

/// The mathematical value of a [`Diagnostic`].
pub struct SpecDiagnostic {
    pub line: int,
    pub message: Seq<char>,
}

impl View for Diagnostic {
    type V = SpecDiagnostic;

    open spec fn view(&self) -> SpecDiagnostic {
        SpecDiagnostic { line: self.line as int, message: self.message@ }
    }
}

/// Builds the diagnostic for a malformed lexeme at the given line.
pub fn error(line: u32, message: &str) -> (d: Diagnostic)
    ensures
        d@ == (SpecDiagnostic { line: line as int, message: message@ }),
{
    Diagnostic { line, message: message.to_owned() }
}

} // verus!
