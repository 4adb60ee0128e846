use ql::format::{format_response, render_csv, render_json, render_table, validate_format};
use ql::protocol::{Cell, QueryResult};

#[test]
fn validates_known_formats() {
    for fmt in &["table", "json", "csv"] {
        assert!(validate_format(fmt).is_ok());
    }
    assert!(validate_format("xml").is_err());
}

#[test]
fn formats_table_output() {
    let result = QueryResult {
        columns: vec!["name".to_string(), "line".to_string()],
        rows: vec![
            vec![Cell::Text("main".to_string()), Cell::Integer(4)],
            vec![Cell::Text("add".to_string()), Cell::Integer(12)],
        ],
    };

    let mut output = Vec::new();
    format_response(&mut output, "table", &result).expect("format should succeed");

    let expected = "name  line\n----  ----\nmain     4\nadd     12\n";
    assert_eq!(String::from_utf8(output).unwrap(), expected);
}

#[test]
fn truncates_long_cells() {
    let result = QueryResult {
        columns: vec!["description".to_string()],
        rows: vec![vec![Cell::Text("a".repeat(70))]],
    };

    let mut output = Vec::new();
    format_response(&mut output, "table", &result).expect("format should succeed");

    let output = String::from_utf8(output).unwrap();
    assert!(output.contains(&format!("{}...", "a".repeat(57))));
}

#[test]
fn formats_json_output() {
    let result = QueryResult {
        columns: vec!["name".to_string(), "line".to_string()],
        rows: vec![vec![Cell::Text("main".to_string()), Cell::Integer(4)]],
    };

    let mut output = Vec::new();
    format_response(&mut output, "json", &result).expect("format should succeed");

    let expected = "[{\"line\":4,\"name\":\"main\"}]\n";
    assert_eq!(String::from_utf8(output).unwrap(), expected);
}

#[test]
fn formats_csv_output() {
    let result = QueryResult {
        columns: vec!["name".to_string(), "line".to_string()],
        rows: vec![vec![Cell::Text("main".to_string()), Cell::Integer(4)]],
    };

    let mut output = Vec::new();
    format_response(&mut output, "csv", &result).expect("format should succeed");

    let expected = "name,line\nmain,4\n";
    assert_eq!(String::from_utf8(output).unwrap(), expected);
}

#[test]
fn handles_empty_columns() {
    let result = QueryResult {
        columns: vec![],
        rows: vec![],
    };

    let mut output = Vec::new();
    format_response(&mut output, "table", &result).expect("format should succeed");
    assert!(String::from_utf8(output).unwrap().is_empty());
}

#[test]
fn unknown_format_is_reported_and_writes_nothing() {
    let result = QueryResult { columns: vec!["a".to_string()], rows: vec![] };
    let mut output = b"keep".to_vec();
    let error = format_response(&mut output, "xml", &result).expect_err("xml is not a format");
    assert_eq!(error, "error: unknown format 'xml' (expected table, json or csv)");
    assert_eq!(output, b"keep".to_vec());
}

#[test]
fn csv_quotes_fields_that_need_it() {
    let result = QueryResult {
        columns: vec!["a,b".to_string(), "n".to_string()],
        rows: vec![
            vec![Cell::Text("say \"hi\"".to_string()), Cell::Null],
            vec![Cell::Bool(true)],
        ],
    };
    assert_eq!(render_csv(&result), "\"a,b\",n\n\"say \"\"hi\"\"\",null\ntrue,\n");
}

#[test]
fn table_aligns_numbers_right_and_text_left() {
    let result = QueryResult {
        columns: vec!["id".to_string(), "label".to_string()],
        rows: vec![
            vec![Cell::Integer(-7), Cell::Text("x".to_string())],
            vec![Cell::Number("2.5".to_string()), Cell::Text("long label".to_string())],
        ],
    };
    assert_eq!(
        render_table(&result),
        "id   label     \n---  ----------\n -7  x         \n2.5  long label\n"
    );
}

#[test]
fn json_keys_are_sorted_and_later_duplicates_win() {
    let result = QueryResult {
        columns: vec!["b".to_string(), "a".to_string(), "b".to_string()],
        rows: vec![
            vec![Cell::Integer(1), Cell::Text("q\"".to_string()), Cell::Null],
            vec![Cell::Bool(false)],
        ],
    };
    assert_eq!(
        render_json(&result),
        "[{\"a\":\"q\\\"\",\"b\":null},{\"a\":null,\"b\":null}]\n"
    );
}

#[test]
fn json_strings_escape_quotes_backslashes_and_control_characters() {
    let result = QueryResult {
        columns: vec!["t\tk".to_string()],
        rows: vec![vec![Cell::Text("a\"b\\c\nd\r\u{8}\u{c}\u{1}\u{1f}é".to_string())]],
    };
    assert_eq!(
        render_json(&result),
        "[{\"t\\tk\":\"a\\\"b\\\\c\\nd\\r\\b\\f\\u0001\\u001fé\"}]\n"
    );
}
