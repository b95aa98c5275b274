use dog::Comment;
use dog::CommentKind;
use dog::DeclKind;
use dog::DocKind;
use dog::EdgeKind;
use dog::ParsedModule;
use dog::SourceTable;
use dog::Stmt;
use dog::StmtKind;
use dog::TableEntry;
use dog::TableOutcome;
use dog::aggregate;
use dog::build;

fn decl(name: &str, sig: &str, lo: usize, hi: usize) -> Stmt {
    Stmt {
        lo,
        hi,
        kind: StmtKind::Decl {
            exported: true,
            name: name.to_string(),
            decl_kind: DeclKind::Function,
            signature: sig.to_string(),
        },
    }
}

fn reexport(raw: &str, name: &str, lo: usize, hi: usize) -> Stmt {
    Stmt {
        lo,
        hi,
        kind: StmtKind::ModuleRef {
            raw: raw.to_string(),
            ref_kind: EdgeKind::ReExportNamed(name.to_string(), None),
        },
    }
}

fn line_comment(text: &str, lo: usize, hi: usize) -> Comment {
    Comment { kind: CommentKind::Line, text: text.to_string(), lo, hi }
}

fn module(specifier: &str, source: &str, stmts: Vec<Stmt>, comments: Vec<Comment>) -> ParsedModule {
    ParsedModule {
        specifier: specifier.to_string(),
        source: source.as_bytes().to_vec(),
        stmts,
        comments,
    }
}

fn entry(specifier: &str, m: ParsedModule) -> TableEntry {
    TableEntry { specifier: specifier.to_string(), outcome: TableOutcome::Module(m) }
}

fn table_of(entries: Vec<TableEntry>) -> SourceTable {
    SourceTable { rules: Vec::new(), entries }
}

#[test]
fn comment_attaches_to_declaration() {
    let a = module(
        "A",
        "// greets a person\nexport function greet(name) {}",
        vec![decl("greet", "function greet(name)", 19, 49)],
        vec![line_comment(" greets a person", 0, 18)],
    );
    let r = build("A".to_string(), table_of(vec![entry("A", a)]));
    let out = aggregate(&r.nodes, 0);
    assert_eq!(out.entries.len(), 1);
    assert_eq!(out.entries[0].symbol_name, "greet");
    assert_eq!(out.entries[0].attached_comment, Some("greets a person".to_string()));
}

#[test]
fn comment_with_blank_lines_is_not_attached() {
    let a = module(
        "A",
        "// greets a person\n\n\nexport function greet(name) {}",
        vec![decl("greet", "function greet(name)", 21, 51)],
        vec![line_comment(" greets a person", 0, 18)],
    );
    let r = build("A".to_string(), table_of(vec![entry("A", a)]));
    let out = aggregate(&r.nodes, 0);
    assert_eq!(out.entries.len(), 1);
    assert_eq!(out.entries[0].attached_comment, None);
}

#[test]
fn reexport_resolves_to_original() {
    // A re-exports `x` from B; B defines `x`.
    let a = module("A", "export { x } from \"B\";", vec![reexport("B", "x", 0, 22)], Vec::new());
    let b = module(
        "B",
        "// the x function\nexport function x() {}",
        vec![decl("x", "function x()", 18, 40)],
        vec![line_comment(" the x function", 0, 17)],
    );
    let r = build("A".to_string(), table_of(vec![entry("A", a), entry("B", b)]));
    let out = aggregate(&r.nodes, 0);
    assert_eq!(out.entries.len(), 2);
    let a_entry = &out.entries[0];
    assert_eq!(a_entry.defining_specifier, "A");
    assert_eq!(a_entry.symbol_name, "x");
    match &a_entry.kind {
        DocKind::ReExport { target_specifier, target_name } => {
            assert_eq!(target_specifier, "B");
            assert_eq!(target_name, "x");
        },
        _ => panic!("entry for a re-export should carry the re-export kind"),
    }
    assert_eq!(a_entry.signature_text, "function x()");
    assert_eq!(a_entry.attached_comment, Some("the x function".to_string()));
    assert!(a_entry.error_marker.is_none());
}

#[test]
fn reexport_chain_resolves_transitively() {
    // A re-exports from B, which re-exports from C, which defines x.
    let a = module("A", "export { x } from \"B\";", vec![reexport("B", "x", 0, 22)], Vec::new());
    let b = module("B", "export { x } from \"C\";", vec![reexport("C", "x", 0, 22)], Vec::new());
    let c = module("C", "export function x() {}", vec![decl("x", "function x()", 0, 22)], Vec::new());
    let r = build("A".to_string(), table_of(vec![entry("A", a), entry("B", b), entry("C", c)]));
    let out = aggregate(&r.nodes, 0);
    assert_eq!(out.entries[0].signature_text, "function x()");
    assert!(out.entries[0].error_marker.is_none());
}

#[test]
fn reexport_resolved_once_for_multiple_importers() {
    // A and C both re-export `x` from B; both resolve to the same original.
    let a = module("A", "export { x } from \"B\";import \"C\";", vec![
        reexport("B", "x", 0, 22),
        Stmt {
            lo: 22,
            hi: 33,
            kind: StmtKind::ModuleRef { raw: "C".to_string(), ref_kind: EdgeKind::SideEffectOnly },
        },
    ], Vec::new());
    let b = module("B", "export function x() {}", vec![decl("x", "function x()", 0, 22)], Vec::new());
    let c = module("C", "export { x } from \"B\";", vec![reexport("B", "x", 0, 22)], Vec::new());
    let r = build("A".to_string(), table_of(vec![entry("A", a), entry("B", b), entry("C", c)]));
    let out = aggregate(&r.nodes, 0);
    let from_a = out.entries.iter().find(|e| e.defining_specifier == "A").unwrap();
    let from_c = out.entries.iter().find(|e| e.defining_specifier == "C").unwrap();
    assert_eq!(from_a.signature_text, "function x()");
    assert_eq!(from_c.signature_text, "function x()");
}

#[test]
fn reexport_cycle_is_surfaced_not_crashed() {
    let a = module("A", "export { x } from \"B\";", vec![reexport("B", "x", 0, 22)], Vec::new());
    let b = module("B", "export { x } from \"A\";", vec![reexport("A", "x", 0, 22)], Vec::new());
    let r = build("A".to_string(), table_of(vec![entry("A", a), entry("B", b)]));
    let out = aggregate(&r.nodes, 0);
    assert_eq!(out.entries.len(), 2);
    assert_eq!(out.entries[0].error_marker, Some("re-export cycle".to_string()));
}

#[test]
fn reexport_of_missing_name_gets_marker() {
    let a = module("A", "export { y } from \"B\";", vec![reexport("B", "y", 0, 22)], Vec::new());
    let b = module("B", "export function x() {}", vec![decl("x", "function x()", 0, 22)], Vec::new());
    let r = build("A".to_string(), table_of(vec![entry("A", a), entry("B", b)]));
    let out = aggregate(&r.nodes, 0);
    assert_eq!(out.entries[0].error_marker, Some("re-export target not found".to_string()));
}

#[test]
fn reexport_from_failed_module_gets_marker() {
    let a = module("A", "export { x } from \"B\";", vec![reexport("B", "x", 0, 22)], Vec::new());
    let r = build("A".to_string(), table_of(vec![entry("A", a)]));
    let out = aggregate(&r.nodes, 0);
    assert_eq!(out.entries[0].error_marker, Some("re-export target failed".to_string()));
}

#[test]
fn aggregate_covers_all_resolved_nodes_and_diagnostics() {
    // A imports nonexistent B and valid C: records come from A and C only;
    // B's failure is reported as a diagnostic, not swallowed.
    let a = module(
        "A",
        "import \"B\";import \"C\";export function a() {}",
        vec![
            Stmt {
                lo: 0,
                hi: 11,
                kind: StmtKind::ModuleRef {
                    raw: "B".to_string(),
                    ref_kind: EdgeKind::SideEffectOnly,
                },
            },
            Stmt {
                lo: 11,
                hi: 22,
                kind: StmtKind::ModuleRef {
                    raw: "C".to_string(),
                    ref_kind: EdgeKind::SideEffectOnly,
                },
            },
            decl("a", "function a()", 22, 44),
        ],
        Vec::new(),
    );
    let c = module("C", "export function c() {}", vec![decl("c", "function c()", 0, 22)], Vec::new());
    let r = build("A".to_string(), table_of(vec![entry("A", a), entry("C", c)]));
    let out = aggregate(&r.nodes, 0);
    let names: Vec<&str> = out.entries.iter().map(|e| e.symbol_name.as_str()).collect();
    assert_eq!(names, vec!["a", "c"]);
    let origins: Vec<&str> = out.entries.iter().map(|e| e.defining_specifier.as_str()).collect();
    assert_eq!(origins, vec!["A", "C"]);
    assert_eq!(out.diagnostics.len(), 1);
    assert_eq!(out.diagnostics[0].specifier, "B");
    assert_eq!(out.diagnostics[0].message, "module not found");
}

#[test]
fn star_reexport_gets_one_entry() {
    let a = module(
        "A",
        "export * from \"B\";",
        vec![Stmt {
            lo: 0,
            hi: 18,
            kind: StmtKind::ModuleRef { raw: "B".to_string(), ref_kind: EdgeKind::ReExportAll },
        }],
        Vec::new(),
    );
    let b = module("B", "export function x() {}", vec![decl("x", "function x()", 0, 22)], Vec::new());
    let r = build("A".to_string(), table_of(vec![entry("A", a), entry("B", b)]));
    let out = aggregate(&r.nodes, 0);
    let star = &out.entries[0];
    assert_eq!(star.symbol_name, "*");
    match &star.kind {
        DocKind::ReExport { target_specifier, target_name } => {
            assert_eq!(target_specifier, "B");
            assert_eq!(target_name, "*");
        },
        _ => panic!("star re-export should carry the re-export kind"),
    }
}
