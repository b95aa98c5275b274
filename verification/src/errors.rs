//! Error types: the formatted diagnostic buffer of a failed parse, and the
//! error attached to a module graph node that could not be resolved,
//! loaded or parsed.

use vstd::prelude::*;

use crate::diagnostics::DiagnosticRecord;
use crate::text::dec_chars;
use crate::text::joined;
use crate::text::join_strings;
use crate::text::usize_to_string;

verus! {

/// A message located at a position: the message followed by
/// ` at specifier:line:col`.
pub open spec fn located_line_of(
    message: Seq<char>,
    specifier: Seq<char>,
    line: nat,
    col: nat,
) -> Seq<char> {
    message + " at "@ + specifier + ":"@ + dec_chars(line) + ":"@ + dec_chars(col)
}

/// The message line a resolved diagnostic is reported as: the message
/// alone when it carried no span, otherwise the message located at its
/// position.
pub open spec fn located_line(r: DiagnosticRecord) -> Seq<char> {
    if r.line == 0 {
        r.message@
    } else {
        located_line_of(r.message@, r.specifier@, r.line as nat, r.col as nat)
    }
}

/// Formats one resolved diagnostic as its report line.
pub fn format_located(r: &DiagnosticRecord) -> (s: String)
    ensures
        s@ == located_line(*r),
{
    if r.line == 0 {
        r.message.clone()
    } else {
        let mut s = r.message.clone();
        s.append(" at ");
        s.append(r.specifier.as_str());
        s.append(":");
        let line = usize_to_string(r.line);
        s.append(line.as_str());
        s.append(":");
        let col = usize_to_string(r.col);
        s.append(col.as_str());
        s
    }
}

/// A buffer of formatted diagnostic message lines from one failed parse.
#[derive(Clone, Debug)]
pub struct SWCDiagnosticBuffer {
    pub diagnostics: Vec<String>,
}

impl SWCDiagnosticBuffer {
    /// Builds the buffer for a list of resolved diagnostics: one formatted
    /// line per record, in order.
    pub fn from_records(records: &Vec<DiagnosticRecord>) -> (r: SWCDiagnosticBuffer)
        ensures
            r.diagnostics@.len() == records@.len(),
            forall|i: int|
                0 <= i < records@.len() ==> (#[trigger] r.diagnostics@[i])@ == located_line(
                    records@[i],
                ),
    {
        let mut lines: Vec<String> = Vec::new();
        let mut i: usize = 0;
        let n = records.len();
        while i < n
            invariant
                n == records@.len(),
                i <= n,
                lines@.len() == i,
                forall|k: int|
                    0 <= k < i ==> (#[trigger] lines@[k])@ == located_line(records@[k]),
            decreases n - i,
        {
            lines.push(format_located(&records[i]));
            i = i + 1;
        }
        SWCDiagnosticBuffer { diagnostics: lines }
    }

    /// All message lines joined with `,`, as a single reportable string.
    pub fn message(&self) -> (s: String)
        ensures
            s@ == joined(self.diagnostics@.map_values(|m: String| m@), ","@),
    {
        join_strings(&self.diagnostics, ",")
    }
}

/// The reportable message of an error.
pub open spec fn error_message_view(e: DocError) -> Seq<char> {
    match e {
        DocError::Resolve(m) => m@,
        DocError::Io(m) => m@,
        DocError::Parse(buffer) => joined(buffer.diagnostics@.map_values(|m: String| m@), ","@),
    }
}

/// Why a module graph node reached no parsed state.
#[derive(Clone, Debug)]
pub enum DocError {
    /// The specifier could not be normalized against its referrer.
    Resolve(String),
    /// The module's source could not be loaded.
    Io(String),
    /// The module's source did not parse; the buffer holds the formatted
    /// diagnostics of the attempt.
    Parse(SWCDiagnosticBuffer),
}

impl DocError {
    /// The reportable message of the error.
    pub fn message(&self) -> (s: String)
        ensures
            s@ == error_message_view(*self),
    {
        match self {
            DocError::Resolve(m) => m.clone(),
            DocError::Io(m) => m.clone(),
            DocError::Parse(buffer) => buffer.message(),
        }
    }
}

impl core::convert::From<SWCDiagnosticBuffer> for DocError {
    /// A failed parse becomes the `Parse` error carrying its buffer.
    fn from(error: SWCDiagnosticBuffer) -> (r: DocError) {
        DocError::Parse(error)
    }
}

impl vstd::std_specs::convert::FromSpecImpl<SWCDiagnosticBuffer> for DocError {
    open spec fn obeys_from_spec() -> bool {
        true
    }

    open spec fn from_spec(error: SWCDiagnosticBuffer) -> DocError {
        DocError::Parse(error)
    }
}

} // verus!
