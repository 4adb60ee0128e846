use ql::ast::rows::FunctionRow;
use ql::plan::PlanError;
use ql::protocol::Cell;
use ql::query::{function_columns, functions_result, ExecuteError};

#[test]
fn lists_the_function_columns_in_table_order() {
    assert_eq!(
        function_columns(),
        vec![
            "file",
            "line",
            "name",
            "visibility",
            "param_count",
            "return_type",
            "complexity",
            "has_test"
        ]
    );
}

#[test]
fn turns_function_rows_into_cells() {
    let rows = vec![FunctionRow {
        file: "main.rs".into(),
        line: 4,
        name: "main".into(),
        visibility: "private".into(),
        param_count: 0,
        return_type: "".into(),
        complexity: 2,
        has_test: true,
    }];
    let result = functions_result(&rows);
    assert_eq!(result.columns, function_columns());
    assert_eq!(
        result.rows,
        vec![vec![
            Cell::Text("main.rs".into()),
            Cell::Integer(4),
            Cell::Text("main".into()),
            Cell::Text("private".into()),
            Cell::Integer(0),
            Cell::Text("".into()),
            Cell::Integer(2),
            Cell::Bool(true),
        ]]
    );
    assert!(functions_result(&Vec::new()).rows.is_empty());
}

#[test]
fn execute_errors_name_their_source() {
    let planned: ExecuteError = PlanError {
        message: "invalid identifier: bad-name".into(),
    }
    .into();
    assert_eq!(planned.message(), "error: invalid identifier: bad-name");
    assert_eq!(
        ExecuteError::DuckDb("Catalog Error".into()).message(),
        "internal error: Catalog Error"
    );
}
