use ql::ast::rows::{CallRow, FingerprintRow, FunctionRow, TableBatch};
use ql::ast::similarity::extract_callsets;

fn call(file: &str, line: usize, caller: &str, callee: &str) -> CallRow {
    CallRow {
        file: file.into(),
        line,
        caller: caller.into(),
        callee: callee.into(),
        is_external: false,
    }
}

#[test]
fn test_extract_callsets() {
    let mut batch = TableBatch::default();
    batch.functions = vec![FunctionRow {
        file: "a.rs".into(),
        line: 1,
        name: "main".into(),
        ..Default::default()
    }];
    batch.calls = vec![
        CallRow {
            file: "a.rs".into(),
            line: 5,
            caller: "main".into(),
            callee: "foo".into(),
            is_external: false,
        },
        CallRow {
            file: "a.rs".into(),
            line: 6,
            caller: "main".into(),
            callee: "bar".into(),
            is_external: false,
        },
        CallRow {
            file: "a.rs".into(),
            line: 7,
            caller: "main".into(),
            callee: "foo".into(),
            is_external: false,
        },
    ];
    batch.fingerprints = vec![FingerprintRow {
        file: "a.rs".into(),
        line: 1,
        name: "main".into(),
        ..Default::default()
    }];

    extract_callsets(&mut batch);

    assert_eq!(batch.callsets.len(), 2);
    assert_eq!(batch.fingerprints[0].unique_callee_count, 2);
}

#[test]
fn callsets_group_by_file_and_caller_in_first_seen_order() {
    let mut batch = TableBatch::default();
    batch.functions = vec![
        FunctionRow { file: "b.rs".into(), line: 40, name: "run".into(), ..Default::default() },
        FunctionRow { file: "a.rs".into(), line: 3, name: "run".into(), ..Default::default() },
    ];
    batch.calls = vec![
        call("a.rs", 5, "run", "x"),
        call("b.rs", 41, "run", "y"),
        call("a.rs", 6, "", "ignored"),
        call("a.rs", 7, "run", "z"),
        call("a.rs", 8, "run", "x"),
        call("c.rs", 1, "orphan", "w"),
    ];
    batch.fingerprints = vec![
        FingerprintRow { file: "a.rs".into(), name: "run".into(), unique_callee_count: 9, ..Default::default() },
        FingerprintRow { file: "d.rs".into(), name: "idle".into(), unique_callee_count: 7, ..Default::default() },
    ];

    extract_callsets(&mut batch);

    let rows: Vec<(String, usize, String, String)> = batch
        .callsets
        .iter()
        .map(|r| (r.file.clone(), r.line, r.name.clone(), r.callee.clone()))
        .collect();
    assert_eq!(
        rows,
        vec![
            ("a.rs".to_string(), 3, "run".to_string(), "x".to_string()),
            ("a.rs".to_string(), 3, "run".to_string(), "z".to_string()),
            ("b.rs".to_string(), 40, "run".to_string(), "y".to_string()),
            ("c.rs".to_string(), 0, "orphan".to_string(), "w".to_string()),
        ]
    );
    assert_eq!(batch.fingerprints[0].unique_callee_count, 2);
    assert_eq!(batch.fingerprints[1].unique_callee_count, 7);
}
