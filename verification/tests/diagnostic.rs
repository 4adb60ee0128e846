use ql::sql::diagnostic::{Diagnostic, Label, Severity, SourceFile, Span};
use ql::sql::parser::parse_query;

#[test]
fn computes_line_and_column() {
    let file = SourceFile::new("query.sql", "SELECT\nname");
    let span = Span::new(0, 8, 12);

    assert_eq!(span.line_col(&file), (2, 2));
}

#[test]
fn renders_single_label_diagnostic() {
    let file = SourceFile::new("query.sql", "SELECT name functions");

    let diagnostic = Diagnostic {
        severity: Severity::Error,
        code: Some("E001".to_string()),
        message: "expected FROM".to_string(),
        labels: vec![Label {
            span: Span::new(0, 12, 21),
            message: String::new(),
        }],
        notes: vec!["try adding a FROM clause".to_string()],
    };

    let rendered = diagnostic.render(&[file]);

    assert!(rendered.contains("Error[E001]: expected FROM"));
    assert!(rendered.contains("query.sql:1:13"));
    assert!(rendered.contains("^~~~~~~~~"));
    assert!(rendered.contains("note: try adding a FROM clause"));
}

#[test]
fn renders_whole_diagnostic_text() {
    let file = SourceFile::new("q.sql", "SELECT a\r\nFROM b WHERE");
    let diagnostic = Diagnostic {
        severity: Severity::Warning,
        code: None,
        message: "odd".to_string(),
        labels: vec![
            Label { span: Span::new(0, 15, 20), message: "here".to_string() },
            Label { span: Span::new(3, 4, 4), message: String::new() },
        ],
        notes: vec!["a".to_string(), "b".to_string()],
    };

    let rendered = diagnostic.render(&[file]);

    assert_eq!(
        rendered,
        "Warning: odd\n  --> q.sql:2:6\n  |\n2 | FROM b WHERE\n  |      ^~~~~ here\n  --> <unknown>:5:1\n   = note: a\n   = note: b\n"
    );
}

#[test]
fn line_text_strips_line_breaks_and_rejects_missing_lines() {
    let file = SourceFile::new("f", "one\r\ntwo\n\nlast");
    assert_eq!(file.line_starts, vec![0, 5, 9, 10]);
    assert_eq!(file.line_text(1), Some("one"));
    assert_eq!(file.line_text(2), Some("two"));
    assert_eq!(file.line_text(3), Some(""));
    assert_eq!(file.line_text(4), Some("last"));
    assert_eq!(file.line_text(0), None);
    assert_eq!(file.line_text(5), None);
}

#[test]
fn line_col_clamps_past_the_end() {
    let file = SourceFile::new("f", "ab\ncd");
    assert_eq!(Span::point(0, 0).line_col(&file), (1, 1));
    assert_eq!(Span::point(0, 3).line_col(&file), (2, 1));
    assert_eq!(Span::point(0, 99).line_col(&file), (2, 3));
}

#[test]
fn snippet_shows_context_lines() {
    let file = SourceFile::new("f", "l1\nl2\nl3\nl4\nl5\nl6\nl7\nl8\nl9\nl10\nl11");
    let span = Span::new(0, 24, 25);
    assert_eq!(span.line_col(&file), (9, 1));
    assert_eq!(span.snippet(&file, 1), " 8 | l8\n 9 | l9\n10 | l10\n");
    assert_eq!(Span::point(0, 0).snippet(&file, 0), "1 | l1\n");
}

#[test]
fn parse_error_renders_each_diagnostic() {
    let query = "SELECT name file FROM functions WHERE complexity >";
    let error = parse_query(query).expect_err("query should fail");
    let rendered = error.render("query.sql", query);
    // Each rendered diagnostic ends its last line; a blank line separates the two.
    assert!(rendered.starts_with("Error[E001]: expected FROM\n"));
    assert_eq!(rendered.matches("\n\n\nError[E001]: expected expression\n").count(), 1);
    assert!(rendered.ends_with("^\n"));
}
