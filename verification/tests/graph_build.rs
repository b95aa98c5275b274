use dog::Comment;
use dog::DeclKind;
use dog::DocError;
use dog::EdgeKind;
use dog::GraphBuilder;
use dog::NodeState;
use dog::ParsedModule;
use dog::RawDiagnostic;
use dog::SourceTable;
use dog::Stmt;
use dog::StmtKind;
use dog::TableEntry;
use dog::TableOutcome;
use dog::build;

fn decl(name: &str, sig: &str, lo: usize, hi: usize) -> Stmt {
    Stmt {
        lo,
        hi,
        kind: StmtKind::Decl {
            exported: true,
            name: name.to_string(),
            decl_kind: DeclKind::Function,
            signature: sig.to_string(),
        },
    }
}

fn import(raw: &str, lo: usize, hi: usize) -> Stmt {
    Stmt {
        lo,
        hi,
        kind: StmtKind::ModuleRef { raw: raw.to_string(), ref_kind: EdgeKind::SideEffectOnly },
    }
}

fn module(specifier: &str, source: &str, stmts: Vec<Stmt>, comments: Vec<Comment>) -> ParsedModule {
    ParsedModule {
        specifier: specifier.to_string(),
        source: source.as_bytes().to_vec(),
        stmts,
        comments,
    }
}

fn table_of(entries: Vec<TableEntry>) -> SourceTable {
    SourceTable { rules: Vec::new(), entries }
}

fn entry(specifier: &str, m: ParsedModule) -> TableEntry {
    TableEntry { specifier: specifier.to_string(), outcome: TableOutcome::Module(m) }
}

#[test]
fn diamond_deduplicates_and_loads_once() {
    // A imports B and C; B and C both import D.
    let a = module(
        "A",
        "import \"B\";import \"C\";",
        vec![import("B", 0, 11), import("C", 11, 22)],
        Vec::new(),
    );
    let b = module("B", "import \"D\";", vec![import("D", 0, 11)], Vec::new());
    let c = module("C", "import \"D\";", vec![import("D", 0, 11)], Vec::new());
    let d = module("D", "export function d() {}", vec![decl("d", "function d()", 0, 22)], Vec::new());
    let table = table_of(vec![entry("A", a), entry("B", b), entry("C", c), entry("D", d)]);
    let r = build("A".to_string(), table);
    assert!(r.entry_error.is_none());
    // node D appears exactly once in the table
    assert_eq!(r.nodes.len(), 4);
    let d_count = r.nodes.iter().filter(|n| n.specifier == "D").count();
    assert_eq!(d_count, 1);
    // D has two distinct incoming edges, from B and from C
    let incoming: Vec<&str> = r
        .nodes
        .iter()
        .flat_map(|n| n.outgoing.iter())
        .filter(|e| e.to == "D")
        .map(|e| e.from.as_str())
        .collect();
    assert_eq!(incoming, vec!["B", "C"]);
    // the loader was invoked exactly once per distinct specifier
    assert_eq!(r.load_log, vec!["A", "B", "C", "D"]);
    for (i, s1) in r.load_log.iter().enumerate() {
        for s2 in r.load_log.iter().skip(i + 1) {
            assert_ne!(s1, s2);
        }
    }
    assert!(r.cycle_notices.is_empty());
}

#[test]
fn cycle_terminates_with_notice() {
    // A imports B, B imports A.
    let a = module("A", "import \"B\";", vec![import("B", 0, 11)], Vec::new());
    let b = module("B", "import \"A\";", vec![import("A", 0, 11)], Vec::new());
    let table = table_of(vec![entry("A", a), entry("B", b)]);
    let r = build("A".to_string(), table);
    assert!(r.entry_error.is_none());
    assert_eq!(r.nodes.len(), 2);
    // both nodes reach a terminal state
    for n in &r.nodes {
        assert!(matches!(n.state, NodeState::Resolved(_)));
    }
    // the back-edge is recorded informationally
    assert_eq!(r.cycle_notices.len(), 1);
    assert_eq!(r.cycle_notices[0].from, "B");
    assert_eq!(r.cycle_notices[0].to, "A");
}

#[test]
fn self_import_records_notice() {
    let a = module("A", "import \"A\";", vec![import("A", 0, 11)], Vec::new());
    let table = table_of(vec![entry("A", a)]);
    let r = build("A".to_string(), table);
    assert_eq!(r.cycle_notices.len(), 1);
    assert_eq!(r.cycle_notices[0].from, "A");
    assert_eq!(r.cycle_notices[0].to, "A");
}

#[test]
fn partial_failure_keeps_siblings() {
    // A imports nonexistent B and valid C: the build succeeds overall.
    let a = module(
        "A",
        "import \"B\";import \"C\";export function a() {}",
        vec![import("B", 0, 11), import("C", 11, 22), decl("a", "function a()", 22, 44)],
        Vec::new(),
    );
    let c = module("C", "export function c() {}", vec![decl("c", "function c()", 0, 22)], Vec::new());
    let table = table_of(vec![entry("A", a), entry("C", c)]);
    let r = build("A".to_string(), table);
    assert!(r.entry_error.is_none());
    assert_eq!(r.nodes.len(), 3);
    assert!(matches!(r.nodes[0].state, NodeState::Resolved(_)));
    let b_node = r.nodes.iter().find(|n| n.specifier == "B").unwrap();
    match &b_node.state {
        NodeState::Failed(DocError::Io(msg)) => assert_eq!(msg, "module not found"),
        _ => panic!("node B should have failed to load"),
    }
    // the failed load is linked from its referrer
    let b_edges: Vec<&str> =
        r.nodes.iter().flat_map(|n| n.outgoing.iter()).filter(|e| e.to == "B").map(|e| e.from.as_str()).collect();
    assert_eq!(b_edges, vec!["A"]);
    let c_node = r.nodes.iter().find(|n| n.specifier == "C").unwrap();
    assert!(matches!(c_node.state, NodeState::Resolved(_)));
}

#[test]
fn entry_failure_fails_the_build() {
    let table = table_of(vec![TableEntry {
        specifier: "A".to_string(),
        outcome: TableOutcome::LoadFailure("disk on fire".to_string()),
    }]);
    let r = build("A".to_string(), table);
    assert_eq!(r.entry_error, Some("disk on fire".to_string()));
    assert!(matches!(r.nodes[0].state, NodeState::Failed(DocError::Io(_))));
}

#[test]
fn parse_failure_formats_diagnostics() {
    let table = table_of(vec![TableEntry {
        specifier: "A".to_string(),
        outcome: TableOutcome::ParseFailure(
            b"ab\ncdef".to_vec(),
            vec![RawDiagnostic { message: "unexpected token".to_string(), lo: Some(4) }],
        ),
    }]);
    let r = build("A".to_string(), table);
    match &r.nodes[0].state {
        NodeState::Failed(DocError::Parse(buffer)) => {
            assert_eq!(buffer.diagnostics, vec!["unexpected token at A:2:1".to_string()]);
        },
        _ => panic!("entry should have failed to parse"),
    }
    assert_eq!(r.entry_error, Some("unexpected token at A:2:1".to_string()));
}

#[test]
fn unresolvable_reference_fails_as_its_own_node() {
    let a = module("A", "import \"bad:x\";", vec![import("bad:x", 0, 15)], Vec::new());
    let table = SourceTable {
        rules: vec![dog::ResolveRule {
            raw: "bad:x".to_string(),
            referrer: "A".to_string(),
            outcome: Err("unsupported scheme".to_string()),
        }],
        entries: vec![entry("A", a)],
    };
    let r = build("A".to_string(), table);
    assert!(r.entry_error.is_none());
    let bad = r.nodes.iter().find(|n| n.specifier == "bad:x").unwrap();
    match &bad.state {
        NodeState::Failed(DocError::Resolve(msg)) => assert_eq!(msg, "unsupported scheme"),
        _ => panic!("unresolvable reference should fail with a resolution error"),
    }
    // the node that failed to resolve was never handed out for loading
    assert_eq!(r.load_log, vec!["A"]);
}

#[test]
fn builder_machine_drives_one_node() {
    let mut builder = GraphBuilder::new("A".to_string());
    let first = builder.next_pending();
    assert_eq!(first, Some("A".to_string()));
    let m = module("A", "export function a() {}", vec![decl("a", "function a()", 0, 22)], Vec::new());
    builder.supply_parsed(m, Vec::new(), Vec::new());
    assert_eq!(builder.next_pending(), None);
    assert_eq!(builder.nodes.len(), 1);
    assert!(matches!(builder.nodes[0].state, NodeState::Resolved(_)));
    assert_eq!(builder.load_log, vec!["A"]);
}

#[test]
fn builder_machine_reports_failure() {
    let mut builder = GraphBuilder::new("A".to_string());
    assert_eq!(builder.next_pending(), Some("A".to_string()));
    builder.supply_failed(DocError::Io("gone".to_string()));
    assert_eq!(builder.next_pending(), None);
    assert!(matches!(builder.nodes[0].state, NodeState::Failed(DocError::Io(_))));
}
