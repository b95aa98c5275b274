//! Documentation extraction for a graph of TypeScript/JavaScript modules.
//!
//! Starting at an entry module, the library follows import statements across
//! modules, records each module exactly once, associates leading comments
//! with exported declarations, and aggregates per-symbol documentation
//! records, tolerating failures in individual modules.

use vstd::prelude::*;

mod aggregate;
mod comments;
mod diagnostics;
mod errors;
mod graph;
mod model;
mod position;
mod syntax;
mod table;
mod text;

pub use syntax::SyntaxKind;
pub use syntax::syntax_kind_code;
pub use table::GraphResult;
pub use table::build;
pub use table::ResolveRule;
pub use table::SourceTable;
pub use table::TableEntry;
pub use table::TableOutcome;
pub use table::resolve;

pub use text::usize_to_string;
pub use text::join_strings;

pub use aggregate::aggregate;
pub use aggregate::DocEntry;
pub use aggregate::DocKind;
pub use aggregate::DocOutput;
pub use aggregate::ResolvedExport;
pub use aggregate::resolve_export;
pub use comments::attach;
pub use graph::CycleNotice;
pub use graph::GraphBuilder;
pub use graph::GraphNode;
pub use graph::ImportEdge;
pub use graph::NodeState;
pub use graph::ParsedUnit;
pub use errors::DocError;
pub use errors::SWCDiagnosticBuffer;
pub use diagnostics::DiagnosticCollector;
pub use diagnostics::DiagnosticRecord;
pub use diagnostics::RawDiagnostic;

pub use model::Comment;
pub use model::CommentKind;
pub use model::DeclKind;
pub use model::EdgeKind;
pub use model::ParsedModule;
pub use model::Stmt;
pub use model::StmtKind;
pub use position::line_of;
pub use position::col_of;
pub use position::line_col_at;

verus! {

/// Hook for parser generation; the default parser needs no generation
/// step, so this does nothing.
pub fn generate_parser() {
}

/// Options for parser generation.
pub struct Options {
    pub swc_options: SWCOptions,
}

/// Options handed to the syntax-tree parser; none are supported yet.
pub struct SWCOptions {
}

impl core::default::Default for SWCOptions {
    fn default() -> (r: SWCOptions)
        ensures
            r == (SWCOptions {  }),
    {
        SWCOptions {  }
    }
}

impl core::default::Default for Options {
    fn default() -> (r: Options)
        ensures
            r == (Options { swc_options: SWCOptions {  } }),
    {
        Options { swc_options: SWCOptions {  } }
    }
}

} // verus!
