//! Per-module collection of parse diagnostics.
//!
//! A [`DiagnosticCollector`] is constructed for a single parse attempt and
//! bound to that module's specifier, so a diagnostic can never end up
//! attributed to another module. Draining the collector resolves each raw
//! byte offset to a line/column position in the module's own source.

use vstd::prelude::*;

use crate::position::col_of;
use crate::position::line_col_at;
use crate::position::line_of;

verus! {

/// A diagnostic as the parser reported it: a message and, when the parser
/// attached a span, the byte offset of its start.
#[derive(Clone, Debug)]
pub struct RawDiagnostic {
    pub message: String,
    pub lo: Option<usize>,
}

/// A resolved diagnostic: the specifier of the module whose parse produced
/// it, and the position of its span start. `line` is 1-based; a `line` of 0
/// means the diagnostic carried no span. `col` counts bytes from the start
/// of the line.
#[derive(Clone, Debug)]
pub struct DiagnosticRecord {
    pub specifier: String,
    pub message: String,
    pub line: usize,
    pub col: usize,
}

/// The byte offset a diagnostic is resolved at: its span start, clamped to
/// the source length.
pub open spec fn clamped_offset(src: Seq<u8>, lo: usize) -> int {
    if lo <= src.len() {
        lo as int
    } else {
        src.len() as int
    }
}

/// How one raw diagnostic of the module `specifier` with source bytes
/// `src` resolves to a record.
pub open spec fn resolves_to(
    specifier: Seq<char>,
    src: Seq<u8>,
    d: RawDiagnostic,
    r: DiagnosticRecord,
) -> bool {
    &&& r.specifier@ == specifier
    &&& r.message@ == d.message@
    &&& match d.lo {
        Some(lo) => r.line == line_of(src, clamped_offset(src, lo)) && r.col == col_of(
            src,
            clamped_offset(src, lo),
        ),
        None => r.line == 0 && r.col == 0,
    }
}

/// Accumulates the diagnostics of one parse attempt, bound to the single
/// module the attempt is for.
pub struct DiagnosticCollector {
    specifier: String,
    raw: Vec<RawDiagnostic>,
}

impl DiagnosticCollector {
    pub closed spec fn spec_specifier(self) -> Seq<char> {
        self.specifier@
    }

    pub closed spec fn spec_raw(self) -> Seq<RawDiagnostic> {
        self.raw@
    }

    /// A fresh collector for one parse attempt of the module `specifier`.
    pub fn new(specifier: String) -> (r: DiagnosticCollector)
        ensures
            r.spec_specifier() == specifier@,
            r.spec_raw() == Seq::<RawDiagnostic>::empty(),
    {
        DiagnosticCollector { specifier, raw: Vec::new() }
    }

    /// Appends one raw diagnostic; no other effect.
    pub fn record(&mut self, d: RawDiagnostic)
        ensures
            final(self).spec_specifier() == old(self).spec_specifier(),
            final(self).spec_raw() == old(self).spec_raw().push(d),
    {
        self.raw.push(d);
    }

    /// Consumes the collector, resolving every recorded diagnostic against
    /// the module's source bytes, in recording order. Every produced record
    /// carries this collector's own specifier.
    pub fn drain(self, source: &[u8]) -> (r: Vec<DiagnosticRecord>)
        requires
            source@.len() < usize::MAX,
        ensures
            r@.len() == self.spec_raw().len(),
            forall|i: int|
                0 <= i < r@.len() ==> resolves_to(
                    self.spec_specifier(),
                    source@,
                    self.spec_raw()[i],
                    #[trigger] r@[i],
                ),
    {
        let mut out: Vec<DiagnosticRecord> = Vec::new();
        let mut i: usize = 0;
        let n = self.raw.len();
        while i < n
            invariant
                n == self.raw@.len(),
                i <= n,
                source@.len() < usize::MAX,
                out@.len() == i,
                forall|k: int|
                    0 <= k < i ==> resolves_to(
                        self.specifier@,
                        source@,
                        self.raw@[k],
                        #[trigger] out@[k],
                    ),
            decreases n - i,
        {
            let d = &self.raw[i];
            let message = d.message.clone();
            let specifier = self.specifier.clone();
            let rec = match d.lo {
                Some(lo) => {
                    let off = if lo <= source.len() {
                        lo
                    } else {
                        source.len()
                    };
                    let (line, col) = line_col_at(source, off);
                    DiagnosticRecord { specifier, message, line, col }
                },
                None => DiagnosticRecord { specifier, message, line: 0, col: 0 },
            };
            out.push(rec);
            i = i + 1;
        }
        out
    }
}

} // verus!
