//! Shared data model: modules, statements, comments, import edges, graph
//! nodes and documentation records.
//!
//! A module's syntax is modelled as the plain values the documentation
//! logic reads: the ordered top-level statements, the ordered comment
//! stream, and the raw source bytes. Producing these values from a real
//! syntax tree is a collaborator's concern.

use vstd::prelude::*;

verus! {

/// Kind of an exported declaration.
#[derive(Clone, Copy, Debug, PartialEq, Eq, Structural)]
pub enum DeclKind {
    Function,
    Class,
    Interface,
    TypeAlias,
    Enum,
    Variable,
}

/// Kind of a reference from one module to another, as written in an
/// import or re-export statement.
#[derive(Clone, Debug, PartialEq, Eq)]
pub enum EdgeKind {
    /// `import * as alias from "src"`
    Namespace,
    /// `import { name as alias } from "src"`
    Named(String, Option<String>),
    /// `import name from "src"`
    DefaultImport,
    /// `import "src"`
    SideEffectOnly,
    /// `export * from "src"`
    ReExportAll,
    /// `export { name as alias } from "src"`
    ReExportNamed(String, Option<String>),
}

/// One top-level statement of a module, in source order.
#[derive(Clone, Debug, PartialEq, Eq)]
pub enum StmtKind {
    /// A declaration; `exported` tells whether it is part of the module's
    /// export surface.
    Decl { exported: bool, name: String, decl_kind: DeclKind, signature: String },
    /// An import or re-export statement naming another module by the raw
    /// (unresolved) specifier `raw`; one statement per referenced binding.
    ModuleRef { raw: String, ref_kind: EdgeKind },
    /// Any other statement.
    Other,
}

/// A top-level statement with its byte span.
#[derive(Clone, Debug, PartialEq, Eq)]
pub struct Stmt {
    pub lo: usize,
    pub hi: usize,
    pub kind: StmtKind,
}

/// Kind of a source comment.
#[derive(Clone, Copy, Debug, PartialEq, Eq, Structural)]
pub enum CommentKind {
    Line,
    Block,
}

/// A source comment with its byte span. `text` is the comment body without
/// the delimiters.
#[derive(Clone, Debug, PartialEq, Eq)]
pub struct Comment {
    pub kind: CommentKind,
    pub text: String,
    pub lo: usize,
    pub hi: usize,
}

/// The mathematical view of an [`EdgeKind`]: the same shape over
/// character sequences.
pub enum EdgeKindV {
    Namespace,
    Named(Seq<char>, Option<Seq<char>>),
    DefaultImport,
    SideEffectOnly,
    ReExportAll,
    ReExportNamed(Seq<char>, Option<Seq<char>>),
}

/// The view of an edge kind.
pub open spec fn edge_kind_view(k: EdgeKind) -> EdgeKindV {
    match k {
        EdgeKind::Namespace => EdgeKindV::Namespace,
        EdgeKind::Named(name, alias) => EdgeKindV::Named(
            name@,
            match alias {
                Option::Some(a) => Option::Some(a@),
                Option::None => Option::None,
            },
        ),
        EdgeKind::DefaultImport => EdgeKindV::DefaultImport,
        EdgeKind::SideEffectOnly => EdgeKindV::SideEffectOnly,
        EdgeKind::ReExportAll => EdgeKindV::ReExportAll,
        EdgeKind::ReExportNamed(name, alias) => EdgeKindV::ReExportNamed(
            name@,
            match alias {
                Option::Some(a) => Option::Some(a@),
                Option::None => Option::None,
            },
        ),
    }
}

/// A fresh edge kind with the same view.
pub fn dup_edge_kind(k: &EdgeKind) -> (r: EdgeKind)
    ensures
        edge_kind_view(r) == edge_kind_view(*k),
{
    match k {
        EdgeKind::Namespace => EdgeKind::Namespace,
        EdgeKind::Named(name, alias) => EdgeKind::Named(
            name.clone(),
            match alias {
                Option::Some(a) => Option::Some(a.clone()),
                Option::None => Option::None,
            },
        ),
        EdgeKind::DefaultImport => EdgeKind::DefaultImport,
        EdgeKind::SideEffectOnly => EdgeKind::SideEffectOnly,
        EdgeKind::ReExportAll => EdgeKind::ReExportAll,
        EdgeKind::ReExportNamed(name, alias) => EdgeKind::ReExportNamed(
            name.clone(),
            match alias {
                Option::Some(a) => Option::Some(a.clone()),
                Option::None => Option::None,
            },
        ),
    }
}

/// The statement is an import or re-export statement.
pub open spec fn is_module_ref(s: Stmt) -> bool {
    s.kind is ModuleRef
}

/// The import and re-export statements of a statement list, in order.
pub open spec fn refs_of(stmts: Seq<Stmt>) -> Seq<Stmt> {
    stmts.filter(|s: Stmt| is_module_ref(s))
}

/// The raw target specifier a reference statement names.
pub open spec fn ref_raw(s: Stmt) -> Seq<char> {
    match s.kind {
        StmtKind::ModuleRef { raw, .. } => raw@,
        _ => Seq::<char>::empty(),
    }
}

/// The edge kind a reference statement carries.
pub open spec fn ref_kind_view(s: Stmt) -> EdgeKindV {
    match s.kind {
        StmtKind::ModuleRef { ref_kind, .. } => edge_kind_view(ref_kind),
        _ => EdgeKindV::SideEffectOnly,
    }
}

/// The reference statements of a prefix are a prefix of the reference
/// statements.
pub proof fn lemma_refs_take_prefix(stmts: Seq<Stmt>, i: int)
    requires
        0 <= i <= stmts.len(),
    ensures
        refs_of(stmts.take(i)).len() <= refs_of(stmts).len(),
        refs_of(stmts.take(i)) == refs_of(stmts).take(refs_of(stmts.take(i)).len() as int),
    decreases stmts.len() - i,
{
    if i == stmts.len() {
        assert(stmts.take(i) =~= stmts);
        assert(refs_of(stmts).take(refs_of(stmts).len() as int) =~= refs_of(stmts));
    } else {
        lemma_refs_take_prefix(stmts, i + 1);
        reveal(Seq::filter);
        assert(stmts.take(i + 1).drop_last() =~= stmts.take(i));
        assert(stmts.take(i + 1).last() == stmts[i]);
        let li = refs_of(stmts.take(i)).len() as int;
        let li1 = refs_of(stmts.take(i + 1)).len() as int;
        if is_module_ref(stmts[i]) {
            assert(refs_of(stmts.take(i + 1)) =~= refs_of(stmts.take(i)).push(stmts[i]));
            assert(refs_of(stmts.take(i)) =~= refs_of(stmts).take(li1).drop_last());
            assert(refs_of(stmts).take(li1).drop_last() =~= refs_of(stmts).take(li1 - 1));
        } else {
            assert(refs_of(stmts.take(i + 1)) =~= refs_of(stmts.take(i)));
        }
    }
}

/// How one statement advances the reference counter.
pub proof fn lemma_refs_step(stmts: Seq<Stmt>, i: int)
    requires
        0 <= i < stmts.len(),
    ensures
        is_module_ref(stmts[i]) ==> refs_of(stmts.take(i)).len() < refs_of(stmts).len(),
        is_module_ref(stmts[i]) ==> refs_of(stmts.take(i + 1)).len() == refs_of(
            stmts.take(i),
        ).len() + 1,
        is_module_ref(stmts[i]) ==> refs_of(stmts)[refs_of(stmts.take(i)).len() as int]
            == stmts[i],
        !is_module_ref(stmts[i]) ==> refs_of(stmts.take(i + 1)) == refs_of(stmts.take(i)),
        refs_of(stmts.take(i + 1)) == refs_of(stmts).take(refs_of(stmts.take(i + 1)).len() as int),
{
    lemma_refs_take_prefix(stmts, i);
    lemma_refs_take_prefix(stmts, i + 1);
    reveal(Seq::filter);
    assert(stmts.take(i + 1).drop_last() =~= stmts.take(i));
    assert(stmts.take(i + 1).last() == stmts[i]);
    if is_module_ref(stmts[i]) {
        assert(refs_of(stmts.take(i + 1)) =~= refs_of(stmts.take(i)).push(stmts[i]));
        let c = refs_of(stmts.take(i)).len() as int;
        assert(refs_of(stmts.take(i + 1))[c] == stmts[i]);
        assert(refs_of(stmts).take(c + 1)[c] == refs_of(stmts)[c]);
    } else {
        assert(refs_of(stmts.take(i + 1)) =~= refs_of(stmts.take(i)));
    }
}

/// The plain-value view of one successfully parsed module: source bytes,
/// top-level statements in source order, and the comment stream ordered by
/// offset.
#[derive(Clone, Debug)]
pub struct ParsedModule {
    pub specifier: String,
    pub source: Vec<u8>,
    pub stmts: Vec<Stmt>,
    pub comments: Vec<Comment>,
}

impl ParsedModule {
    /// Spans lie inside the source, the source fits in memory, and the
    /// comment stream is ordered by offset without overlaps.
    pub open spec fn wf(self) -> bool {
        &&& self.source@.len() < usize::MAX
        &&& forall|i: int|
            0 <= i < self.comments@.len() ==> (#[trigger] self.comments@[i]).lo
                <= self.comments@[i].hi <= self.source@.len()
        &&& forall|i: int, j: int|
            0 <= i < j < self.comments@.len() ==> (#[trigger] self.comments@[i]).hi <= (
            #[trigger] self.comments@[j]).lo
        &&& forall|i: int|
            0 <= i < self.stmts@.len() ==> (#[trigger] self.stmts@[i]).lo <= self.stmts@[i].hi
                <= self.source@.len()
    }
}

} // verus!
