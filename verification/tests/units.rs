use dog::Comment;
use dog::CommentKind;
use dog::DiagnosticCollector;
use dog::DiagnosticRecord;
use dog::DocError;
use dog::Options;
use dog::RawDiagnostic;
use dog::ResolveRule;
use dog::SWCDiagnosticBuffer;
use dog::SWCOptions;
use dog::SyntaxKind;
use dog::attach;
use dog::generate_parser;
use dog::join_strings;
use dog::line_col_at;
use dog::resolve;
use dog::usize_to_string;

fn line_comment(text: &str, lo: usize, hi: usize) -> Comment {
    Comment { kind: CommentKind::Line, text: text.to_string(), lo, hi }
}

#[test]
fn position_resolution() {
    let src = b"ab\ncd\n\nx";
    assert_eq!(line_col_at(src, 0), (1, 0));
    assert_eq!(line_col_at(src, 1), (1, 1));
    assert_eq!(line_col_at(src, 3), (2, 0));
    assert_eq!(line_col_at(src, 4), (2, 1));
    assert_eq!(line_col_at(src, 6), (3, 0));
    assert_eq!(line_col_at(src, 7), (4, 0));
    assert_eq!(line_col_at(src, 8), (4, 1));
}

#[test]
fn decimal_rendering() {
    assert_eq!(usize_to_string(0), "0");
    assert_eq!(usize_to_string(7), "7");
    assert_eq!(usize_to_string(42), "42");
    assert_eq!(usize_to_string(1234567890), "1234567890");
}

#[test]
fn joining_strings() {
    let parts = vec!["a".to_string(), "b".to_string(), "c".to_string()];
    assert_eq!(join_strings(&parts, ","), "a,b,c");
    let one = vec!["only".to_string()];
    assert_eq!(join_strings(&one, ","), "only");
    let none: Vec<String> = Vec::new();
    assert_eq!(join_strings(&none, ","), "");
}

#[test]
fn collector_resolves_and_isolates() {
    let mut collector = DiagnosticCollector::new("A".to_string());
    collector.record(RawDiagnostic { message: "bad token".to_string(), lo: Some(4) });
    collector.record(RawDiagnostic { message: "no span".to_string(), lo: None });
    let records = collector.drain(b"ab\ncdef");
    assert_eq!(records.len(), 2);
    // every record carries the collector's own specifier, never another's
    for r in &records {
        assert_eq!(r.specifier, "A");
    }
    assert_eq!(records[0].line, 2);
    assert_eq!(records[0].col, 1);
    assert_eq!(records[1].line, 0);
    assert_eq!(records[1].col, 0);
}

#[test]
fn collector_clamps_out_of_range_span() {
    let mut collector = DiagnosticCollector::new("A".to_string());
    collector.record(RawDiagnostic { message: "late".to_string(), lo: Some(99) });
    let records = collector.drain(b"ab\nc");
    assert_eq!(records[0].line, 2);
    assert_eq!(records[0].col, 1);
}

#[test]
fn buffer_formats_locations() {
    let records = vec![
        DiagnosticRecord {
            specifier: "foo.ts".to_string(),
            message: "bad".to_string(),
            line: 3,
            col: 7,
        },
        DiagnosticRecord {
            specifier: "foo.ts".to_string(),
            message: "plain".to_string(),
            line: 0,
            col: 0,
        },
    ];
    let buffer = SWCDiagnosticBuffer::from_records(&records);
    assert_eq!(buffer.diagnostics.len(), 2);
    assert_eq!(buffer.diagnostics[0], "bad at foo.ts:3:7");
    assert_eq!(buffer.diagnostics[1], "plain");
    assert_eq!(buffer.message(), "bad at foo.ts:3:7,plain");
}

#[test]
fn doc_error_messages() {
    let resolve_err = DocError::Resolve("cannot resolve ./x".to_string());
    assert_eq!(resolve_err.message(), "cannot resolve ./x");
    let io_err = DocError::Io("not found".to_string());
    assert_eq!(io_err.message(), "not found");
    let buffer = SWCDiagnosticBuffer { diagnostics: vec!["a".to_string(), "b".to_string()] };
    let parse_err = DocError::from(buffer);
    assert!(matches!(parse_err, DocError::Parse(_)));
    assert_eq!(parse_err.message(), "a,b");
}

#[test]
fn attach_single_line_comment() {
    let src = b"// greets a person\nexport function greet(name) {}";
    let comments = vec![line_comment(" greets a person", 0, 18)];
    let got = attach(src, &comments, 19, 0);
    assert_eq!(got, Some("greets a person".to_string()));
}

#[test]
fn attach_rejects_blank_line_gap() {
    let src = b"// greets a person\n\n\nexport function greet(name) {}";
    let comments = vec![line_comment(" greets a person", 0, 18)];
    let got = attach(src, &comments, 21, 0);
    assert_eq!(got, None);
}

#[test]
fn attach_threshold_allows_one_blank_line() {
    let src = b"// a\n\nexport function f() {}";
    let comments = vec![line_comment(" a", 0, 4)];
    assert_eq!(attach(src, &comments, 6, 0), None);
    assert_eq!(attach(src, &comments, 6, 1), Some("a".to_string()));
}

#[test]
fn attach_joins_run_with_newlines() {
    let src = b"// a\n// b\nexport function f() {}";
    let comments = vec![line_comment(" a", 0, 4), line_comment(" b", 5, 9)];
    assert_eq!(attach(src, &comments, 10, 0), Some("a\nb".to_string()));
}

#[test]
fn attach_skips_trailing_comment_of_previous_statement() {
    let src = b"let x = 1; // t\n// doc\nexport function f() {}";
    let comments = vec![line_comment(" t", 11, 15), line_comment(" doc", 16, 22)];
    assert_eq!(attach(src, &comments, 23, 0), Some("doc".to_string()));
}

#[test]
fn attach_block_comment_keeps_full_body() {
    let src = b"/* Body */\nexport function f() {}";
    let comments =
        vec![Comment { kind: CommentKind::Block, text: " Body ".to_string(), lo: 0, hi: 10 }];
    assert_eq!(attach(src, &comments, 11, 0), Some(" Body ".to_string()));
}

#[test]
fn attach_deterministic_same_inputs_same_result() {
    let src = b"// doc\nexport function f() {}";
    let comments = vec![line_comment(" doc", 0, 6)];
    let first = attach(src, &comments, 7, 0);
    let second = attach(src, &comments, 7, 0);
    assert_eq!(first, second);
}

#[test]
fn resolution_rules() {
    let rules = vec![
        ResolveRule {
            raw: "./b".to_string(),
            referrer: "A".to_string(),
            outcome: Ok("B".to_string()),
        },
        ResolveRule {
            raw: "bad:x".to_string(),
            referrer: "A".to_string(),
            outcome: Err("unsupported scheme".to_string()),
        },
    ];
    assert_eq!(resolve(&rules, &"./b".to_string(), &"A".to_string()), Ok("B".to_string()));
    // no rule for this referrer: the raw specifier is already normal
    assert_eq!(resolve(&rules, &"./b".to_string(), &"X".to_string()), Ok("./b".to_string()));
    assert_eq!(
        resolve(&rules, &"bad:x".to_string(), &"A".to_string()),
        Err("unsupported scheme".to_string())
    );
}

#[test]
fn syntax_kind_codes() {
    assert_eq!(SyntaxKind::WHITESPACE.code(), 0);
    assert_eq!(SyntaxKind::NEWLINE.code(), 1);
    assert_eq!(SyntaxKind::FLOAT.code(), 15);
    assert_eq!(SyntaxKind::ERROR.code(), 22);
    assert_eq!(SyntaxKind::ROOT.code(), 30);
}

#[test]
fn default_options() {
    let options = Options::default();
    let SWCOptions {} = options.swc_options;
    let SWCOptions {} = SWCOptions::default();
    generate_parser();
}
