use ql::adapters::typescript::TypeScriptAdapter;
use ql::ast::adapter::walk_source;
use ql::ast::analysis::{normalize_csv_list, second_pass};
use ql::ast::rows::{CallRow, CommentRow, FingerprintRow, FunctionRow, StructRow, TableBatch};
use ql::ast::similarity::extract_callsets;
use ql::source::{snapshots_equal, Snapshot};
use ql::sql::diagnostic::{SourceFile, Span};
use ql::sql::lexer::lex;
use ql::sql::parser::parse_query;

#[test]
fn normalizing_twice_is_normalizing_once() {
    let once = normalize_csv_list(" Greeter, Serializable ,Greeter,, Clone ");
    assert_eq!(once, "Greeter,Serializable,Clone");
    assert_eq!(normalize_csv_list(&once), once);
    assert_eq!(normalize_csv_list(" , ,"), "");
    assert_eq!(normalize_csv_list(""), "");
}

#[test]
fn second_pass_twice_changes_nothing_more() {
    let mut batch = TableBatch::new("src/lib.rs");
    batch.functions = vec![FunctionRow {
        file: "src/lib.rs".into(),
        line: 10,
        name: "run".into(),
        ..Default::default()
    }];
    batch.structs = vec![StructRow {
        file: "src/lib.rs".into(),
        line: 20,
        name: "Config".into(),
        implements: " Clone, Debug,Clone ".into(),
        ..Default::default()
    }];
    batch.comments = vec![
        CommentRow {
            file: "src/lib.rs".into(),
            line: 5,
            text: "/// Runs.".into(),
            ..Default::default()
        },
        CommentRow {
            file: "src/lib.rs".into(),
            line: 15,
            text: "/// Settings.".into(),
            ..Default::default()
        },
    ];
    second_pass(&mut batch);
    let once = batch.clone();
    second_pass(&mut batch);
    assert_eq!(batch.structs, once.structs);
    assert_eq!(batch.comments, once.comments);
    assert_eq!(batch.structs[0].implements, "Clone,Debug");
    assert_eq!(batch.comments[0].attached_to, "run");
    assert_eq!(batch.comments[1].attached_to, "Config");
}

#[test]
fn callee_count_matches_call_set_rows() {
    let call = |caller: &str, callee: &str| CallRow {
        file: "a.rs".into(),
        line: 1,
        caller: caller.into(),
        callee: callee.into(),
        is_external: false,
    };
    let mut batch = TableBatch::default();
    batch.calls = vec![call("main", "foo"), call("main", "bar"), call("main", "foo"), call("other", "foo")];
    batch.fingerprints = vec![FingerprintRow {
        file: "a.rs".into(),
        name: "main".into(),
        ..Default::default()
    }];
    extract_callsets(&mut batch);
    let rows = batch
        .callsets
        .iter()
        .filter(|r| r.file == "a.rs" && r.name == "main")
        .count();
    assert_eq!(rows, 2);
    assert_eq!(batch.fingerprints[0].unique_callee_count, rows);
}

#[test]
fn walked_rows_carry_their_file_and_a_line_from_one() {
    let source = "// top\nimport { a as b } from \"m\";\nclass K { go() { run(); } }\nlet x = 1;\n";
    let batch = walk_source(&TypeScriptAdapter, "src/k.ts", source).expect("parse");
    assert!(!batch.functions.is_empty());
    assert!(batch.functions.iter().all(|r| r.file == "src/k.ts" && r.line >= 1));
    assert!(batch.calls.iter().all(|r| r.file == "src/k.ts" && r.line >= 1));
    assert!(batch.imports.iter().all(|r| r.file == "src/k.ts" && r.line >= 1));
    assert!(batch.structs.iter().all(|r| r.file == "src/k.ts" && r.line >= 1));
    assert!(batch.variables.iter().all(|r| r.file == "src/k.ts" && r.line >= 1));
    assert!(batch.comments.iter().all(|r| r.file == "src/k.ts" && r.line >= 1));
    assert!(batch.fingerprints.iter().all(|r| r.file == "src/k.ts" && r.line >= 1));
    assert_eq!(batch.comments[0].line, 1);
    assert_eq!(batch.fingerprints.len(), batch.functions.len());
    for (f, fp) in batch.functions.iter().zip(batch.fingerprints.iter()) {
        assert_eq!((&f.file, f.line, &f.name), (&fp.file, fp.line, &fp.name));
    }
}

#[test]
fn tokens_are_ordered_within_the_query() {
    let query = "SELECT name, file FROM functions WHERE line >= 10";
    let tokens = lex(query).expect("lexes");
    assert!(tokens.iter().all(|t| t.start < t.end && t.end <= query.len()));
    assert!(tokens.windows(2).all(|w| w[0].end <= w[1].start));
    assert_eq!(lex("SELECT @"), Err(7));
}

#[test]
fn refused_queries_carry_diagnostics() {
    let error = parse_query("SELECT").expect_err("incomplete");
    assert!(!error.diagnostics.is_empty());
    let error = parse_query("SELECT name FROM functions WHERE @").expect_err("bad token");
    assert_eq!(error.diagnostics.len(), 1);
    assert_eq!(error.diagnostics[0].code.as_deref(), Some("E000"));
    assert_eq!(error.diagnostics[0].labels[0].span.start, 33);
}

#[test]
fn line_and_column_count_newlines_and_bytes() {
    let file = SourceFile::new("q.sql", "a\nbc\n\ndef");
    assert_eq!(Span::point(0, 0).line_col(&file), (1, 1));
    assert_eq!(Span::point(0, 3).line_col(&file), (2, 2));
    assert_eq!(Span::point(0, 5).line_col(&file), (3, 1));
    assert_eq!(Span::point(0, 8).line_col(&file), (4, 3));
    assert_eq!(Span::point(0, 99).line_col(&file), (4, 4));
}

#[test]
fn changed_time_is_detected() {
    let mut before = Snapshot::new();
    before.insert("lib.rs".to_string(), 5);
    let mut same = Snapshot::new();
    same.insert("lib.rs".to_string(), 5);
    same.insert("lib.rs".to_string(), 5);
    assert!(snapshots_equal(&before, &same));
    let mut changed = Snapshot::new();
    changed.insert("lib.rs".to_string(), 5);
    changed.insert("lib.rs".to_string(), 6);
    assert!(!snapshots_equal(&before, &changed));
    let mut added = Snapshot::new();
    added.insert("lib.rs".to_string(), 5);
    added.insert("mod.rs".to_string(), 5);
    assert!(!snapshots_equal(&before, &added));
}

#[test]
fn a_recorded_time_is_read_back() {
    let mut snapshot = Snapshot::new();
    snapshot.insert("a.rs".to_string(), 1);
    snapshot.insert("b.rs".to_string(), 2);
    snapshot.insert("a.rs".to_string(), 3);
    assert_eq!(snapshot.get("a.rs"), Some(3));
    assert_eq!(snapshot.get("b.rs"), Some(2));
    assert_eq!(snapshot.get("c.rs"), None);
    assert_eq!(snapshot.len(), 2);
    assert!(snapshot.contains_key("b.rs"));
}

#[test]
fn marks_functions_tested_in_their_package() {
    let function = |file: &str, line: usize, name: &str| FunctionRow {
        file: file.into(),
        line,
        name: name.into(),
        ..Default::default()
    };
    let mut batch = TableBatch::default();
    batch.functions = vec![
        function("src/a/lib.rs", 1, "parse"),
        function("src/a/lib.rs", 5, "test_parse"),
        function("src/a/lib.rs", 9, "Render"),
        function("src/a/lib.rs", 10, "render_test"),
        function("src/a/lib.rs", 12, "Load"),
        function("src/a/lib.rs", 13, "TestLoad"),
        function("src/a/lib.rs", 14, "Test"),
        function("src/b/lib.rs", 1, "parse"),
        function("src/a/other.rs", 3, "Render"),
    ];
    second_pass(&mut batch);
    let marks: Vec<bool> = batch.functions.iter().map(|f| f.has_test).collect();
    assert_eq!(
        marks,
        vec![true, false, true, false, true, false, false, false, true]
    );
    second_pass(&mut batch);
    assert!(batch.functions[0].has_test);
}

#[test]
fn lines_joined_by_line_feeds_give_back_the_text() {
    for content in ["a\nbc\n\ndef", "a\n", "", "one line", "é\nü\n"] {
        let file = SourceFile::new("q.sql", content);
        let count = file.line_starts.len();
        assert_eq!(file.line_text(0), None);
        assert_eq!(file.line_text(count + 1), None);
        let lines: Vec<&str> = (1..=count).map(|l| file.line_text(l).unwrap()).collect();
        assert!(lines.iter().all(|l| !l.contains('\n')));
        assert_eq!(lines.join("\n"), content);
    }
}
