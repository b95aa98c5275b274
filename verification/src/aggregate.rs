//! The documentation aggregator.
//!
//! Walks each Resolved module of a completed graph in discovery order,
//! builds one documentation record per exported declaration with its
//! attached comment, records one entry per re-export statement, and
//! resolves named re-exports lazily through the graph — transitively,
//! memoized, and safely over re-export cycles, which surface as an error
//! marker on the entry rather than a failure. All diagnostics of all
//! nodes are returned alongside the records, never swallowed.

use vstd::prelude::*;

use crate::comments::attach;
use crate::comments::attach_spec;
use crate::diagnostics::DiagnosticRecord;
use crate::errors::error_message_view;
use crate::graph::GraphNode;
use crate::graph::NodeState;
use crate::graph::find_node;
use crate::graph::has_spec;
use crate::graph::node_specs;
use crate::graph::nodes_wf;
use crate::model::DeclKind;
use crate::model::EdgeKind;
use crate::model::Stmt;
use crate::model::StmtKind;
use crate::model::is_module_ref;
use crate::model::lemma_refs_step;
use crate::model::refs_of;

verus! {

/// Kind of a documentation record.
pub enum DocKind {
    Function,
    Class,
    Interface,
    TypeAlias,
    Enum,
    Variable,
    /// A re-export of `target_name` from the module `target_specifier`.
    ReExport { target_specifier: String, target_name: String },
}

/// One per-symbol documentation record.
pub struct DocEntry {
    pub defining_specifier: String,
    pub symbol_name: String,
    pub kind: DocKind,
    pub signature_text: String,
    pub attached_comment: Option<String>,
    pub span_lo: usize,
    pub span_hi: usize,
    /// Set when a re-export could not be resolved; the entry is still
    /// emitted rather than silently dropped.
    pub error_marker: Option<String>,
}

/// What the aggregator produced: the records in module-discovery order,
/// each module's records in source order, and every diagnostic of every
/// node.
pub struct DocOutput {
    pub entries: Vec<DocEntry>,
    pub diagnostics: Vec<DiagnosticRecord>,
}

/// The statement produces a documentation record: an exported
/// declaration or a re-export statement.
pub open spec fn docable(s: Stmt) -> bool {
    match s.kind {
        StmtKind::Decl { exported, .. } => exported,
        StmtKind::ModuleRef { ref_kind, .. } => match ref_kind {
            EdgeKind::ReExportAll => true,
            EdgeKind::ReExportNamed(_, _) => true,
            _ => false,
        },
        StmtKind::Other => false,
    }
}

/// The indices, at or after `i`, of the statements that produce records.
pub open spec fn doc_indices(stmts: Seq<Stmt>, i: int) -> Seq<int>
    decreases stmts.len() - i,
{
    if i < 0 || i >= stmts.len() {
        Seq::<int>::empty()
    } else {
        (if docable(stmts[i]) {
            seq![i]
        } else {
            Seq::<int>::empty()
        }) + doc_indices(stmts, i + 1)
    }
}

/// The exported kind of a declaration, as a record kind.
pub open spec fn doc_kind_matches(d: DeclKind, k: DocKind) -> bool {
    match d {
        DeclKind::Function => k is Function,
        DeclKind::Class => k is Class,
        DeclKind::Interface => k is Interface,
        DeclKind::TypeAlias => k is TypeAlias,
        DeclKind::Enum => k is Enum,
        DeclKind::Variable => k is Variable,
    }
}

/// The attached comment field realises the comment the associator
/// computes.
pub open spec fn comment_opt_matches(got: Option<String>, want: Option<Seq<char>>) -> bool {
    match got {
        Option::Some(s) => want == Option::Some(s@),
        Option::None => want is None,
    }
}

/// The name a re-export statement exposes: the alias when present, the
/// original name otherwise.
pub open spec fn exposed_name(name: Seq<char>, alias: Option<Seq<char>>) -> Seq<char> {
    match alias {
        Option::Some(a) => a,
        Option::None => name,
    }
}

/// What a scan of a module's statements finds for an exported name:
/// the first exported declaration of that name, or the first named
/// re-export exposing it (with its statement index and its position
/// among the module's reference statements), or nothing.
pub enum ScanFind {
    Decl(int),
    ReExp(int, int),
    Missing,
}

/// Scans statements from index `i` (with `c` reference statements seen
/// before `i`) for the first statement exporting `name`.
pub open spec fn scan_match(stmts: Seq<Stmt>, name: Seq<char>, i: int, c: int) -> ScanFind
    decreases stmts.len() - i,
{
    if i < 0 || i >= stmts.len() {
        ScanFind::Missing
    } else {
        match stmts[i].kind {
            StmtKind::Decl { exported, name: dname, .. } => {
                if exported && dname@ == name {
                    ScanFind::Decl(i)
                } else {
                    scan_match(stmts, name, i + 1, c)
                }
            },
            StmtKind::ModuleRef { ref_kind, .. } => {
                match ref_kind {
                    EdgeKind::ReExportNamed(n, alias) => {
                        if exposed_name(
                            n@,
                            match alias {
                                Option::Some(a) => Option::Some(a@),
                                Option::None => Option::None,
                            },
                        ) == name {
                            ScanFind::ReExp(i, c)
                        } else {
                            scan_match(stmts, name, i + 1, c + 1)
                        }
                    },
                    _ => scan_match(stmts, name, i + 1, c + 1),
                }
            },
            StmtKind::Other => scan_match(stmts, name, i + 1, c),
        }
    }
}

/// The index of the node carrying specifier `s`.
pub open spec fn spec_index_of(nodes: Seq<GraphNode>, s: Seq<char>) -> int {
    choose|k: int| 0 <= k < nodes.len() && (#[trigger] nodes[k]).specifier@ == s
}

/// What resolving an exported name against a module yields.
pub enum ResolvedExportV {
    /// The name resolves to an original declaration: its signature, its
    /// attached comment, and the specifier of the declaring module.
    Found(Seq<char>, Option<Seq<char>>, Seq<char>),
    /// No module carries the target specifier or none of its statements
    /// exports the name.
    Missing,
    /// The target module itself failed to resolve, load or parse.
    TargetFailed,
    /// The chain of re-exports does not terminate.
    Cycle,
}

/// The inner name a named re-export statement forwards.
pub open spec fn reexp_inner_name(s: Stmt) -> Seq<char> {
    match s.kind {
        StmtKind::ModuleRef { ref_kind: EdgeKind::ReExportNamed(n, _), .. } => n@,
        _ => Seq::<char>::empty(),
    }
}

/// Resolves the exported `name` of the module with specifier `s`,
/// following named re-export chains while `fuel` lasts; exhausted fuel
/// reports a cycle.
pub open spec fn resolve_export_spec(
    nodes: Seq<GraphNode>,
    s: Seq<char>,
    name: Seq<char>,
    fuel: nat,
    max_blank: nat,
) -> ResolvedExportV
    decreases fuel,
{
    if fuel == 0 {
        ResolvedExportV::Cycle
    } else if !has_spec(nodes, s) {
        ResolvedExportV::Missing
    } else {
        let k = spec_index_of(nodes, s);
        match nodes[k].state {
            NodeState::Resolved(u) => {
                match scan_match(u.module.stmts@, name, 0, 0) {
                    ScanFind::Decl(i) => {
                        match u.module.stmts@[i].kind {
                            StmtKind::Decl { signature, .. } => ResolvedExportV::Found(
                                signature@,
                                attach_spec(
                                    u.module.source@,
                                    u.module.comments@,
                                    u.module.stmts@[i].lo as int,
                                    max_blank,
                                ),
                                u.module.specifier@,
                            ),
                            _ => ResolvedExportV::Missing,
                        }
                    },
                    ScanFind::ReExp(i, c) => {
                        if c < nodes[k].outgoing@.len() {
                            resolve_export_spec(
                                nodes,
                                nodes[k].outgoing@[c].to@,
                                reexp_inner_name(u.module.stmts@[i]),
                                (fuel - 1) as nat,
                                max_blank,
                            )
                        } else {
                            ResolvedExportV::Missing
                        }
                    },
                    ScanFind::Missing => ResolvedExportV::Missing,
                }
            },
            _ => ResolvedExportV::TargetFailed,
        }
    }
}

/// Re-export resolution, as the aggregator computes it.
pub enum ResolvedExport {
    Found(String, Option<String>, String),
    Missing,
    TargetFailed,
    Cycle,
}

/// The view of a computed resolution.
pub open spec fn rex_view(r: ResolvedExport) -> ResolvedExportV {
    match r {
        ResolvedExport::Found(sig, com, def) => ResolvedExportV::Found(
            sig@,
            match com {
                Option::Some(c) => Option::Some(c@),
                Option::None => Option::None,
            },
            def@,
        ),
        ResolvedExport::Missing => ResolvedExportV::Missing,
        ResolvedExport::TargetFailed => ResolvedExportV::TargetFailed,
        ResolvedExport::Cycle => ResolvedExportV::Cycle,
    }
}

/// Every Resolved node of the graph holds its own well-formed module and
/// one edge per reference statement — what a completed build guarantees,
/// and what documentation aggregation relies on.
pub open spec fn graph_for_docs(nodes: Seq<GraphNode>) -> bool {
    forall|k: int|
        0 <= k < nodes.len() ==> match (#[trigger] nodes[k]).state {
            NodeState::Resolved(u) => u.module.specifier@ == nodes[k].specifier@ && u.module.wf()
                && nodes[k].outgoing@.len() == refs_of(u.module.stmts@).len(),
            _ => true,
        }
}

/// Scans the module's statements for the first one exporting `name`.
fn scan_export(stmts: &Vec<Stmt>, name: &String) -> (r: Option<(usize, usize, bool)>)
    ensures
        match r {
            Option::Some((i, c, is_decl)) => {
                &&& i < stmts@.len()
                &&& (is_decl ==> scan_match(stmts@, name@, 0, 0) == ScanFind::Decl(i as int)
                    && stmts@[i as int].kind matches StmtKind::Decl { .. })
                &&& (!is_decl ==> scan_match(stmts@, name@, 0, 0) == ScanFind::ReExp(
                    i as int,
                    c as int,
                ) && stmts@[i as int].kind matches StmtKind::ModuleRef {
                    ref_kind: EdgeKind::ReExportNamed(_, _),
                    ..
                })
            },
            Option::None => scan_match(stmts@, name@, 0, 0) == ScanFind::Missing,
        },
{
    let n = stmts.len();
    let mut i: usize = 0;
    let mut c: usize = 0;
    while i < n
        invariant
            i <= n == stmts@.len(),
            c <= i,
            scan_match(stmts@, name@, 0, 0) == scan_match(stmts@, name@, i as int, c as int),
        decreases n - i,
    {
        match &stmts[i].kind {
            StmtKind::Decl { exported, name: dname, .. } => {
                if *exported && dname.eq(name) {
                    return Option::Some((i, c, true));
                }
            },
            StmtKind::ModuleRef { ref_kind, .. } => {
                match ref_kind {
                    EdgeKind::ReExportNamed(n2, alias) => {
                        let exposed: &String = match alias {
                            Option::Some(a) => a,
                            Option::None => n2,
                        };
                        if exposed.eq(name) {
                            return Option::Some((i, c, false));
                        }
                        c = c + 1;
                    },
                    EdgeKind::Namespace | EdgeKind::Named(_, _) | EdgeKind::DefaultImport
                        | EdgeKind::SideEffectOnly | EdgeKind::ReExportAll => {
                        c = c + 1;
                    },
                }
            },
            StmtKind::Other => {},
        }
        i = i + 1;
    }
    Option::None
}

/// Resolves the exported `name` of the module with specifier `s`,
/// following named re-export chains while `fuel` lasts.
pub fn resolve_export(
    nodes: &Vec<GraphNode>,
    s: &String,
    name: &String,
    fuel: usize,
    max_blank_lines: usize,
) -> (r: ResolvedExport)
    requires
        nodes_wf(nodes@),
        graph_for_docs(nodes@),
        max_blank_lines < usize::MAX,
    ensures
        rex_view(r) == resolve_export_spec(
            nodes@,
            s@,
            name@,
            fuel as nat,
            max_blank_lines as nat,
        ),
    decreases fuel,
{
    if fuel == 0 {
        return ResolvedExport::Cycle;
    }
    let found = find_node(nodes, s);
    let k = match found {
        Option::None => {
            return ResolvedExport::Missing;
        },
        Option::Some(k) => k,
    };
    proof {
        let kk = spec_index_of(nodes@, s@);
        assert(0 <= kk < nodes@.len() && nodes@[kk].specifier@ == s@);
        if kk != k as int {
            assert(node_specs(nodes@)[kk] == node_specs(nodes@)[k as int]);
            assert(false);
        }
    }
    match &nodes[k].state {
        NodeState::Resolved(u) => {
            let hit = scan_export(&u.module.stmts, name);
            match hit {
                Option::Some((i, c, is_decl)) => {
                    if is_decl {
                        match &u.module.stmts[i].kind {
                            StmtKind::Decl { signature, .. } => {
                                let comment = attach(
                                    u.module.source.as_slice(),
                                    &u.module.comments,
                                    u.module.stmts[i].lo,
                                    max_blank_lines,
                                );
                                ResolvedExport::Found(
                                    signature.clone(),
                                    comment,
                                    u.module.specifier.clone(),
                                )
                            },
                            _ => {
                                proof {
                                    assert(false);
                                }
                                ResolvedExport::Missing
                            },
                        }
                    } else {
                        if c < nodes[k].outgoing.len() {
                            let inner: String = match &u.module.stmts[i].kind {
                                StmtKind::ModuleRef {
                                    ref_kind: EdgeKind::ReExportNamed(n2, _),
                                    ..
                                } => n2.clone(),
                                _ => {
                                    proof {
                                        assert(false);
                                    }
                                    String::new()
                                },
                            };
                            let target = nodes[k].outgoing[c].to.clone();
                            resolve_export(nodes, &target, &inner, fuel - 1, max_blank_lines)
                        } else {
                            ResolvedExport::Missing
                        }
                    }
                },
                Option::None => ResolvedExport::Missing,
            }
        },
        _ => ResolvedExport::TargetFailed,
    }
}

/// Re-export transitivity, one step: when the first statement of module
/// `a` exporting `name` is a named re-export, its resolution is exactly
/// the resolution of the forwarded name against the edge's target.
pub proof fn lemma_reexport_step(
    nodes: Seq<GraphNode>,
    a: Seq<char>,
    name: Seq<char>,
    fuel: nat,
    max_blank: nat,
)
    requires
        fuel >= 1,
        has_spec(nodes, a),
        nodes[spec_index_of(nodes, a)].state matches NodeState::Resolved(u) && {
            let find = scan_match(u.module.stmts@, name, 0, 0);
            find matches ScanFind::ReExp(i, c) && c < nodes[spec_index_of(
                nodes,
                a,
            )].outgoing@.len()
        },
    ensures
        ({
            let k = spec_index_of(nodes, a);
            let u = nodes[k].state->Resolved_0;
            let find = scan_match(u.module.stmts@, name, 0, 0);
            let i = find->ReExp_0;
            let c = find->ReExp_1;
            resolve_export_spec(nodes, a, name, fuel, max_blank) == resolve_export_spec(
                nodes,
                nodes[k].outgoing@[c].to@,
                reexp_inner_name(u.module.stmts@[i]),
                (fuel - 1) as nat,
                max_blank,
            )
        }),
{
}

/// Re-export transitivity, final step: when the first statement of
/// module `b` exporting `name` is an exported declaration, resolution
/// lands on that declaration's own signature and attached comment.
pub proof fn lemma_reexport_lands(
    nodes: Seq<GraphNode>,
    b: Seq<char>,
    name: Seq<char>,
    fuel: nat,
    max_blank: nat,
)
    requires
        fuel >= 1,
        has_spec(nodes, b),
        nodes[spec_index_of(nodes, b)].state matches NodeState::Resolved(u) && scan_match(
            u.module.stmts@,
            name,
            0,
            0,
        ) matches ScanFind::Decl(i) && u.module.stmts@[i].kind matches StmtKind::Decl { .. },
    ensures
        ({
            let k = spec_index_of(nodes, b);
            let u = nodes[k].state->Resolved_0;
            let i = scan_match(u.module.stmts@, name, 0, 0)->Decl_0;
            resolve_export_spec(nodes, b, name, fuel, max_blank) == ResolvedExportV::Found(
                u.module.stmts@[i].kind->Decl_signature@,
                attach_spec(
                    u.module.source@,
                    u.module.comments@,
                    u.module.stmts@[i].lo as int,
                    max_blank,
                ),
                u.module.specifier@,
            )
        }),
{
}

/// Two diagnostic records carry the same data.
pub open spec fn record_like(a: DiagnosticRecord, b: DiagnosticRecord) -> bool {
    &&& a.specifier@ == b.specifier@
    &&& a.message@ == b.message@
    &&& a.line == b.line
    &&& a.col == b.col
}

/// The diagnostics segment one node contributes: a Resolved node's own
/// records; for a Failed node one record carrying its own specifier and
/// the error's message, with no position.
pub open spec fn node_diags_match(n: GraphNode, seg: Seq<DiagnosticRecord>) -> bool {
    match n.state {
        NodeState::Resolved(u) => seg.len() == u.diagnostics@.len() && forall|x: int|
            0 <= x < seg.len() ==> record_like(#[trigger] seg[x], u.diagnostics@[x]),
        NodeState::Failed(e) => seg.len() == 1 && seg[0].specifier@ == n.specifier@
            && seg[0].message@ == error_message_view(e) && seg[0].line == 0 && seg[0].col == 0,
        _ => seg.len() == 0,
    }
}

/// How many diagnostic records node `k` contributes.
pub open spec fn node_diag_count(nodes: Seq<GraphNode>, k: int) -> nat {
    match nodes[k].state {
        NodeState::Resolved(u) => u.diagnostics@.len(),
        NodeState::Failed(_) => 1,
        _ => 0,
    }
}

/// How many diagnostic records the first `upto` nodes contribute.
pub open spec fn diags_total(nodes: Seq<GraphNode>, upto: int) -> nat
    decreases upto,
{
    if upto <= 0 {
        0
    } else {
        diags_total(nodes, upto - 1) + node_diag_count(nodes, upto - 1)
    }
}

/// The diagnostics of the first `upto` nodes, node by node in order:
/// node `k`'s segment sits at its offset.
pub open spec fn diags_match(nodes: Seq<GraphNode>, upto: int, out: Seq<DiagnosticRecord>) -> bool {
    &&& out.len() == diags_total(nodes, upto)
    &&& forall|k: int|
        0 <= k < upto ==> node_diags_match(
            nodes[k],
            out.subrange(
                #[trigger] diags_total(nodes, k) as int,
                diags_total(nodes, k + 1) as int,
            ),
        )
}

/// One documentation record realises the docable statement at index `i`
/// of the module of node `k`.
pub open spec fn entry_matches(
    nodes: Seq<GraphNode>,
    k: int,
    i: int,
    e: DocEntry,
    fuel: nat,
    max_blank: nat,
) -> bool {
    let u = nodes[k].state->Resolved_0;
    let m = u.module;
    let st = m.stmts@[i];
    &&& nodes[k].state is Resolved
    &&& 0 <= i < m.stmts@.len()
    &&& e.defining_specifier@ == m.specifier@
    &&& e.span_lo == st.lo
    &&& e.span_hi == st.hi
    &&& match st.kind {
        StmtKind::Decl { exported, name, decl_kind, signature } => {
            &&& exported
            &&& e.symbol_name@ == name@
            &&& doc_kind_matches(decl_kind, e.kind)
            &&& e.signature_text@ == signature@
            &&& comment_opt_matches(
                e.attached_comment,
                attach_spec(m.source@, m.comments@, st.lo as int, max_blank),
            )
            &&& e.error_marker is None
        },
        StmtKind::ModuleRef { ref_kind, .. } => {
            let c = refs_of(m.stmts@.take(i)).len() as int;
            &&& c < nodes[k].outgoing@.len()
            &&& match ref_kind {
                EdgeKind::ReExportAll => {
                    &&& e.symbol_name@ == "*"@
                    &&& e.kind matches DocKind::ReExport { target_specifier, target_name }
                        && target_specifier@ == nodes[k].outgoing@[c].to@ && target_name@ == "*"@
                    &&& e.signature_text@.len() == 0
                    &&& e.attached_comment is None
                    &&& e.error_marker is None
                },
                EdgeKind::ReExportNamed(n, alias) => {
                    &&& e.symbol_name@ == exposed_name(
                        n@,
                        match alias {
                            Option::Some(a) => Option::Some(a@),
                            Option::None => Option::None,
                        },
                    )
                    &&& e.kind matches DocKind::ReExport { target_specifier, target_name }
                        && target_specifier@ == nodes[k].outgoing@[c].to@ && target_name@ == n@
                    &&& match resolve_export_spec(
                        nodes,
                        nodes[k].outgoing@[c].to@,
                        n@,
                        fuel,
                        max_blank,
                    ) {
                        ResolvedExportV::Found(sig, com, _) => e.signature_text@ == sig
                            && comment_opt_matches(e.attached_comment, com) && e.error_marker
                            is None,
                        ResolvedExportV::Missing => e.error_marker matches Option::Some(msg)
                            && msg@ == "re-export target not found"@,
                        ResolvedExportV::TargetFailed => e.error_marker matches Option::Some(msg)
                            && msg@ == "re-export target failed"@,
                        ResolvedExportV::Cycle => e.error_marker matches Option::Some(msg)
                            && msg@ == "re-export cycle"@,
                    }
                },
                _ => false,
            }
        },
        StmtKind::Other => false,
    }
}

/// The record segment of node `k`: one record per docable statement of
/// its module, in source order; a node without a module contributes
/// nothing.
pub open spec fn node_entries_match(
    nodes: Seq<GraphNode>,
    k: int,
    seg: Seq<DocEntry>,
    fuel: nat,
    max_blank: nat,
) -> bool {
    match nodes[k].state {
        NodeState::Resolved(u) => {
            let idxs = doc_indices(u.module.stmts@, 0);
            &&& seg.len() == idxs.len()
            &&& forall|j: int|
                0 <= j < seg.len() ==> entry_matches(
                    nodes,
                    k,
                    idxs[j],
                    #[trigger] seg[j],
                    fuel,
                    max_blank,
                )
        },
        _ => seg.len() == 0,
    }
}

/// How many documentation records node `k` contributes.
pub open spec fn node_entry_count(nodes: Seq<GraphNode>, k: int) -> nat {
    match nodes[k].state {
        NodeState::Resolved(u) => doc_indices(u.module.stmts@, 0).len(),
        _ => 0,
    }
}

/// How many documentation records the first `upto` nodes contribute.
pub open spec fn entries_total(nodes: Seq<GraphNode>, upto: int) -> nat
    decreases upto,
{
    if upto <= 0 {
        0
    } else {
        entries_total(nodes, upto - 1) + node_entry_count(nodes, upto - 1)
    }
}

/// The records of the first `upto` nodes, node by node in discovery
/// order: node `k`'s segment sits at its offset.
pub open spec fn entries_match(
    nodes: Seq<GraphNode>,
    upto: int,
    out: Seq<DocEntry>,
    fuel: nat,
    max_blank: nat,
) -> bool {
    &&& out.len() == entries_total(nodes, upto)
    &&& forall|k: int|
        0 <= k < upto ==> node_entries_match(
            nodes,
            k,
            out.subrange(
                #[trigger] entries_total(nodes, k) as int,
                entries_total(nodes, k + 1) as int,
            ),
            fuel,
            max_blank,
        )
}

proof fn lemma_entries_total_mono(nodes: Seq<GraphNode>, a: int, b: int)
    requires
        a <= b,
    ensures
        entries_total(nodes, a) <= entries_total(nodes, b),
    decreases b,
{
    if a < b && b > 0 {
        lemma_entries_total_mono(nodes, a, b - 1);
    }
}

proof fn lemma_diags_total_mono(nodes: Seq<GraphNode>, a: int, b: int)
    requires
        a <= b,
    ensures
        diags_total(nodes, a) <= diags_total(nodes, b),
    decreases b,
{
    if a < b && b > 0 {
        lemma_diags_total_mono(nodes, a, b - 1);
    }
}

/// Appending node `upto - 1`'s segment extends a matching record list.
proof fn lemma_entries_match_extend(
    nodes: Seq<GraphNode>,
    upto: int,
    out: Seq<DocEntry>,
    split: int,
    fuel: nat,
    max_blank: nat,
)
    requires
        1 <= upto,
        0 <= split <= out.len(),
        entries_match(nodes, upto - 1, out.take(split), fuel, max_blank),
        node_entries_match(nodes, upto - 1, out.skip(split), fuel, max_blank),
    ensures
        entries_match(nodes, upto, out, fuel, max_blank),
{
    assert(split == entries_total(nodes, upto - 1));
    assert(out.skip(split).len() == node_entry_count(nodes, upto - 1)) by {
        match nodes[upto - 1].state {
            NodeState::Resolved(u) => {},
            _ => {},
        }
    }
    assert forall|k: int| 0 <= k < upto implies node_entries_match(
        nodes,
        k,
        out.subrange(
            #[trigger] entries_total(nodes, k) as int,
            entries_total(nodes, k + 1) as int,
        ),
        fuel,
        max_blank,
    ) by {
        if k < upto - 1 {
            lemma_entries_total_mono(nodes, k + 1, upto - 1);
            assert(out.subrange(
                entries_total(nodes, k) as int,
                entries_total(nodes, k + 1) as int,
            ) =~= out.take(split).subrange(
                entries_total(nodes, k) as int,
                entries_total(nodes, k + 1) as int,
            ));
        } else {
            assert(out.subrange(
                entries_total(nodes, k) as int,
                entries_total(nodes, k + 1) as int,
            ) =~= out.skip(split));
        }
    }
}

/// Appending node `upto - 1`'s segment extends a matching diagnostics
/// list.
proof fn lemma_diags_match_extend(
    nodes: Seq<GraphNode>,
    upto: int,
    out: Seq<DiagnosticRecord>,
    split: int,
)
    requires
        1 <= upto,
        0 <= split <= out.len(),
        diags_match(nodes, upto - 1, out.take(split)),
        node_diags_match(nodes[upto - 1], out.skip(split)),
    ensures
        diags_match(nodes, upto, out),
{
    assert(split == diags_total(nodes, upto - 1));
    assert(out.skip(split).len() == node_diag_count(nodes, upto - 1)) by {
        match nodes[upto - 1].state {
            NodeState::Resolved(u) => {},
            _ => {},
        }
    }
    assert forall|k: int| 0 <= k < upto implies node_diags_match(
        nodes[k],
        out.subrange(#[trigger] diags_total(nodes, k) as int, diags_total(nodes, k + 1) as int),
    ) by {
        if k < upto - 1 {
            lemma_diags_total_mono(nodes, k + 1, upto - 1);
            assert(out.subrange(
                diags_total(nodes, k) as int,
                diags_total(nodes, k + 1) as int,
            ) =~= out.take(split).subrange(
                diags_total(nodes, k) as int,
                diags_total(nodes, k + 1) as int,
            ));
        } else {
            assert(out.subrange(
                diags_total(nodes, k) as int,
                diags_total(nodes, k + 1) as int,
            ) =~= out.skip(split));
        }
    }
}

/// The number of statements across the modules of the first `upto`
/// nodes; re-export chains longer than this revisit a statement.
pub open spec fn stmt_budget(nodes: Seq<GraphNode>, upto: int) -> nat
    decreases upto,
{
    if upto <= 0 {
        0
    } else {
        stmt_budget(nodes, upto - 1) + (match nodes[upto - 1].state {
            NodeState::Resolved(u) => u.module.stmts@.len(),
            _ => 0,
        })
    }
}

proof fn lemma_stmt_budget_mono(nodes: Seq<GraphNode>, a: int, b: int)
    requires
        a <= b,
    ensures
        stmt_budget(nodes, a) <= stmt_budget(nodes, b),
    decreases b,
{
    if a < b && b > 0 {
        lemma_stmt_budget_mono(nodes, a, b - 1);
    }
}

/// The exported kind of a declaration as a record kind.
fn kind_of(d: &DeclKind) -> (r: DocKind)
    ensures
        doc_kind_matches(*d, r),
{
    match d {
        DeclKind::Function => DocKind::Function,
        DeclKind::Class => DocKind::Class,
        DeclKind::Interface => DocKind::Interface,
        DeclKind::TypeAlias => DocKind::TypeAlias,
        DeclKind::Enum => DocKind::Enum,
        DeclKind::Variable => DocKind::Variable,
    }
}

/// A fresh resolution result with the same view.
fn dup_rex(r: &ResolvedExport) -> (d: ResolvedExport)
    ensures
        rex_view(d) == rex_view(*r),
{
    match r {
        ResolvedExport::Found(sig, com, def) => ResolvedExport::Found(
            sig.clone(),
            match com {
                Option::Some(c) => Option::Some(c.clone()),
                Option::None => Option::None,
            },
            def.clone(),
        ),
        ResolvedExport::Missing => ResolvedExport::Missing,
        ResolvedExport::TargetFailed => ResolvedExport::TargetFailed,
        ResolvedExport::Cycle => ResolvedExport::Cycle,
    }
}

/// Every memoized resolution equals the specified one at full fuel.
spec fn memo_ok(
    nodes: Seq<GraphNode>,
    memo: Seq<(String, String, ResolvedExport)>,
    fuel: nat,
    max_blank: nat,
) -> bool {
    forall|x: int|
        0 <= x < memo.len() ==> rex_view((#[trigger] memo[x]).2) == resolve_export_spec(
            nodes,
            memo[x].0@,
            memo[x].1@,
            fuel,
            max_blank,
        )
}

/// Looks up a memoized resolution for `(target, name)`.
fn memo_find(
    memo: &Vec<(String, String, ResolvedExport)>,
    target: &String,
    name: &String,
) -> (r: Option<ResolvedExport>)
    ensures
        match r {
            Option::Some(d) => exists|x: int|
                0 <= x < memo@.len() && (#[trigger] memo@[x]).0@ == target@ && memo@[x].1@
                    == name@ && rex_view(d) == rex_view(memo@[x].2),
            Option::None => true,
        },
{
    let n = memo.len();
    let mut x: usize = 0;
    while x < n
        invariant
            x <= n == memo@.len(),
        decreases n - x,
    {
        if target.eq(&memo[x].0) && name.eq(&memo[x].1) {
            return Option::Some(dup_rex(&memo[x].2));
        }
        x = x + 1;
    }
    Option::None
}

/// Aggregates documentation over a completed graph: walks every
/// Resolved node in discovery order, emits one record per exported
/// declaration with its attached comment and one per re-export
/// statement (named re-exports resolved transitively through the graph,
/// memoized, with an error marker instead of a failure when the chain
/// is missing, failed or cyclic), and returns every node's diagnostics
/// alongside. Never fails outright.
#[verifier::rlimit(100)]
pub fn aggregate(nodes: &Vec<GraphNode>, max_blank_lines: usize) -> (r: DocOutput)
    requires
        nodes_wf(nodes@),
        graph_for_docs(nodes@),
        max_blank_lines < usize::MAX,
        stmt_budget(nodes@, nodes@.len() as int) < usize::MAX,
    ensures
        entries_match(
            nodes@,
            nodes@.len() as int,
            r.entries@,
            stmt_budget(nodes@, nodes@.len() as int) + 1,
            max_blank_lines as nat,
        ),
        diags_match(nodes@, nodes@.len() as int, r.diagnostics@),
{
    let n = nodes.len();
    let mut budget: usize = 0;
    let mut k: usize = 0;
    while k < n
        invariant
            k <= n == nodes@.len(),
            budget == stmt_budget(nodes@, k as int),
            stmt_budget(nodes@, n as int) < usize::MAX,
        decreases n - k,
    {
        proof {
            lemma_stmt_budget_mono(nodes@, k + 1, n as int);
        }
        match &nodes[k].state {
            NodeState::Resolved(u) => {
                budget = budget + u.module.stmts.len();
            },
            _ => {},
        }
        k = k + 1;
    }
    let fuel = budget + 1;
    let ghost fuel_n = fuel as nat;
    let mut entries: Vec<DocEntry> = Vec::new();
    let mut diags: Vec<DiagnosticRecord> = Vec::new();
    let mut memo: Vec<(String, String, ResolvedExport)> = Vec::new();
    let mut k: usize = 0;
    proof {
        assert(entries_match(nodes@, 0, entries@, fuel_n, max_blank_lines as nat));
        assert(diags_match(nodes@, 0, diags@));
    }
    while k < n
        invariant
            k <= n == nodes@.len(),
            nodes_wf(nodes@),
            graph_for_docs(nodes@),
            max_blank_lines < usize::MAX,
            fuel_n == fuel as nat,
            entries_match(nodes@, k as int, entries@, fuel_n, max_blank_lines as nat),
            diags_match(nodes@, k as int, diags@),
            memo_ok(nodes@, memo@, fuel_n, max_blank_lines as nat),
        decreases n - k,
    {
        let ghost entries_pre = entries@;
        let ghost diags_pre = diags@;
        match &nodes[k].state {
            NodeState::Resolved(u) => {
                // this node's own diagnostics, in order
                let nd = u.diagnostics.len();
                let mut d: usize = 0;
                while d < nd
                    invariant
                        d <= nd == u.diagnostics@.len(),
                        diags@.len() == diags_pre.len() + d,
                        diags@.take(diags_pre.len() as int) == diags_pre,
                        forall|x: int|
                            0 <= x < d ==> record_like(
                                #[trigger] diags@[diags_pre.len() + x],
                                u.diagnostics@[x],
                            ),
                    decreases nd - d,
                {
                    let rec = &u.diagnostics[d];
                    diags.push(
                        DiagnosticRecord {
                            specifier: rec.specifier.clone(),
                            message: rec.message.clone(),
                            line: rec.line,
                            col: rec.col,
                        },
                    );
                    proof {
                        assert(diags@.take(diags_pre.len() as int) =~= diags_pre);
                    }
                    d = d + 1;
                }
                // one record per docable statement, in source order
                proof {
                    assert(u.module.wf());
                    assert(u.module.stmts@.take(0) =~= Seq::<Stmt>::empty());
                    assert(refs_of(Seq::<Stmt>::empty()) =~= Seq::<Stmt>::empty());
                }
                let ns = u.module.stmts.len();
                let mut i: usize = 0;
                let mut c: usize = 0;
                let ghost mut idxs_done: Seq<int> = Seq::<int>::empty();
                while i < ns
                    invariant
                        k < n == nodes@.len(),
                        nodes_wf(nodes@),
                        graph_for_docs(nodes@),
                        max_blank_lines < usize::MAX,
                        fuel_n == fuel as nat,
                        nodes@[k as int].state matches NodeState::Resolved(uu) && uu == *u,
                        ns == u.module.stmts@.len(),
                        i <= ns,
                        c == refs_of(u.module.stmts@.take(i as int)).len(),
                        doc_indices(u.module.stmts@, 0) == idxs_done + doc_indices(
                            u.module.stmts@,
                            i as int,
                        ),
                        entries@.len() == entries_pre.len() + idxs_done.len(),
                        entries@.take(entries_pre.len() as int) == entries_pre,
                        forall|j: int|
                            0 <= j < idxs_done.len() ==> entry_matches(
                                nodes@,
                                k as int,
                                idxs_done[j],
                                #[trigger] entries@[entries_pre.len() + j],
                                fuel_n,
                                max_blank_lines as nat,
                            ),
                        memo_ok(nodes@, memo@, fuel_n, max_blank_lines as nat),
                    decreases ns - i,
                {
                    proof {
                        lemma_refs_step(u.module.stmts@, i as int);
                    }
                    let st = &u.module.stmts[i];
                    match &st.kind {
                        StmtKind::Decl { exported, name, decl_kind, signature } => {
                            if *exported {
                                let comment = attach(
                                    u.module.source.as_slice(),
                                    &u.module.comments,
                                    st.lo,
                                    max_blank_lines,
                                );
                                entries.push(
                                    DocEntry {
                                        defining_specifier: u.module.specifier.clone(),
                                        symbol_name: name.clone(),
                                        kind: kind_of(decl_kind),
                                        signature_text: signature.clone(),
                                        attached_comment: comment,
                                        span_lo: st.lo,
                                        span_hi: st.hi,
                                        error_marker: Option::None,
                                    },
                                );
                                proof {
                                    assert(entries@.take(entries_pre.len() as int) =~= entries_pre);
                                    idxs_done = idxs_done.push(i as int);
                                    assert(doc_indices(u.module.stmts@, 0) =~= idxs_done
                                        + doc_indices(u.module.stmts@, i + 1));
                                }
                            }
                        },
                        StmtKind::ModuleRef { ref_kind, .. } => {
                            proof {
                                assert(is_module_ref(u.module.stmts@[i as int]));
                                assert(c < nodes@[k as int].outgoing@.len());
                            }
                            match ref_kind {
                                EdgeKind::ReExportAll => {
                                    let target = nodes[k].outgoing[c].to.clone();
                                    entries.push(
                                        DocEntry {
                                            defining_specifier: u.module.specifier.clone(),
                                            symbol_name: String::from_str("*"),
                                            kind: DocKind::ReExport {
                                                target_specifier: target,
                                                target_name: String::from_str("*"),
                                            },
                                            signature_text: String::new(),
                                            attached_comment: Option::None,
                                            span_lo: st.lo,
                                            span_hi: st.hi,
                                            error_marker: Option::None,
                                        },
                                    );
                                    proof {
                                        assert(entries@.take(entries_pre.len() as int)
                                            =~= entries_pre);
                                        idxs_done = idxs_done.push(i as int);
                                        assert(doc_indices(u.module.stmts@, 0) =~= idxs_done
                                            + doc_indices(u.module.stmts@, i + 1));
                                    }
                                },
                                EdgeKind::ReExportNamed(n2, alias) => {
                                    let target = nodes[k].outgoing[c].to.clone();
                                    // resolving the same target and name twice
                                    // reuses the first computation
                                    let rex = match memo_find(&memo, &target, n2) {
                                        Option::Some(r) => r,
                                        Option::None => {
                                            let r = resolve_export(
                                                nodes,
                                                &target,
                                                n2,
                                                fuel,
                                                max_blank_lines,
                                            );
                                            memo.push((target.clone(), n2.clone(), dup_rex(&r)));
                                            r
                                        },
                                    };
                                    let symbol: String = match alias {
                                        Option::Some(a) => a.clone(),
                                        Option::None => n2.clone(),
                                    };
                                    let entry = match rex {
                                        ResolvedExport::Found(sig, com, _) => DocEntry {
                                            defining_specifier: u.module.specifier.clone(),
                                            symbol_name: symbol,
                                            kind: DocKind::ReExport {
                                                target_specifier: target,
                                                target_name: n2.clone(),
                                            },
                                            signature_text: sig,
                                            attached_comment: com,
                                            span_lo: st.lo,
                                            span_hi: st.hi,
                                            error_marker: Option::None,
                                        },
                                        ResolvedExport::Missing => DocEntry {
                                            defining_specifier: u.module.specifier.clone(),
                                            symbol_name: symbol,
                                            kind: DocKind::ReExport {
                                                target_specifier: target,
                                                target_name: n2.clone(),
                                            },
                                            signature_text: String::new(),
                                            attached_comment: Option::None,
                                            span_lo: st.lo,
                                            span_hi: st.hi,
                                            error_marker: Option::Some(
                                                String::from_str("re-export target not found"),
                                            ),
                                        },
                                        ResolvedExport::TargetFailed => DocEntry {
                                            defining_specifier: u.module.specifier.clone(),
                                            symbol_name: symbol,
                                            kind: DocKind::ReExport {
                                                target_specifier: target,
                                                target_name: n2.clone(),
                                            },
                                            signature_text: String::new(),
                                            attached_comment: Option::None,
                                            span_lo: st.lo,
                                            span_hi: st.hi,
                                            error_marker: Option::Some(
                                                String::from_str("re-export target failed"),
                                            ),
                                        },
                                        ResolvedExport::Cycle => DocEntry {
                                            defining_specifier: u.module.specifier.clone(),
                                            symbol_name: symbol,
                                            kind: DocKind::ReExport {
                                                target_specifier: target,
                                                target_name: n2.clone(),
                                            },
                                            signature_text: String::new(),
                                            attached_comment: Option::None,
                                            span_lo: st.lo,
                                            span_hi: st.hi,
                                            error_marker: Option::Some(
                                                String::from_str("re-export cycle"),
                                            ),
                                        },
                                    };
                                    entries.push(entry);
                                    proof {
                                        assert(entries@.take(entries_pre.len() as int)
                                            =~= entries_pre);
                                        idxs_done = idxs_done.push(i as int);
                                        assert(doc_indices(u.module.stmts@, 0) =~= idxs_done
                                            + doc_indices(u.module.stmts@, i + 1));
                                    }
                                },
                                _ => {
                                    proof {
                                        assert(doc_indices(u.module.stmts@, i as int)
                                            =~= doc_indices(u.module.stmts@, i + 1));
                                    }
                                },
                            }
                            c = c + 1;
                        },
                        StmtKind::Other => {
                            proof {
                                assert(doc_indices(u.module.stmts@, i as int) =~= doc_indices(
                                    u.module.stmts@,
                                    i + 1,
                                ));
                            }
                        },
                    }
                    i = i + 1;
                }
                proof {
                    assert(doc_indices(u.module.stmts@, ns as int) =~= Seq::<int>::empty());
                    assert(doc_indices(u.module.stmts@, 0) =~= idxs_done);
                    assert(node_entries_match(
                        nodes@,
                        k as int,
                        entries@.skip(entries_pre.len() as int),
                        fuel_n,
                        max_blank_lines as nat,
                    )) by {
                        let seg = entries@.skip(entries_pre.len() as int);
                        assert forall|j: int| 0 <= j < seg.len() implies entry_matches(
                            nodes@,
                            k as int,
                            doc_indices(u.module.stmts@, 0)[j],
                            #[trigger] seg[j],
                            fuel_n,
                            max_blank_lines as nat,
                        ) by {
                            assert(seg[j] == entries@[entries_pre.len() + j]);
                        }
                    }
                    assert(node_diags_match(
                        nodes@[k as int],
                        diags@.skip(diags_pre.len() as int),
                    )) by {
                        let seg = diags@.skip(diags_pre.len() as int);
                        assert forall|x: int| 0 <= x < seg.len() implies record_like(
                            #[trigger] seg[x],
                            u.diagnostics@[x],
                        ) by {
                            assert(seg[x] == diags@[diags_pre.len() + x]);
                        }
                    }
                }
            },
            NodeState::Failed(e) => {
                diags.push(
                    DiagnosticRecord {
                        specifier: nodes[k].specifier.clone(),
                        message: e.message(),
                        line: 0,
                        col: 0,
                    },
                );
                proof {
                    assert(diags@.take(diags_pre.len() as int) =~= diags_pre);
                    assert(diags@.skip(diags_pre.len() as int).len() == 1);
                    assert(node_diags_match(
                        nodes@[k as int],
                        diags@.skip(diags_pre.len() as int),
                    ));
                    assert(entries@.skip(entries_pre.len() as int).len() == 0);
                }
            },
            _ => {
                proof {
                    assert(entries@.skip(entries_pre.len() as int).len() == 0);
                    assert(diags@.skip(diags_pre.len() as int).len() == 0);
                }
            },
        }
        proof {
            assert(entries@.take(entries_pre.len() as int) =~= entries_pre);
            assert(diags@.take(diags_pre.len() as int) =~= diags_pre);
            let split_e = entries_pre.len() as int;
            assert(entries_match(nodes@, k as int, entries@.take(split_e), fuel_n,
                max_blank_lines as nat));
            assert(node_entries_match(nodes@, k as int, entries@.skip(split_e), fuel_n,
                max_blank_lines as nat));
            lemma_entries_match_extend(nodes@, k + 1, entries@, split_e, fuel_n,
                max_blank_lines as nat);
            let split_d = diags_pre.len() as int;
            assert(diags_match(nodes@, k as int, diags@.take(split_d)));
            assert(node_diags_match(nodes@[k as int], diags@.skip(split_d)));
            lemma_diags_match_extend(nodes@, k + 1, diags@, split_d);
        }
        k = k + 1;
    }
    DocOutput { entries, diagnostics: diags }
}

} // verus!
