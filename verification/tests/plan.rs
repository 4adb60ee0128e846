use ql::plan::plan_select;
use ql::sql::ast::{SelectItem, SelectStatement, TableRef};
use ql::sql::parser::parse_query;

fn parse(query: &str) -> SelectStatement {
    parse_query(query).expect("query should parse")
}

#[test]
fn renders_filter_order_and_limit() {
    let statement =
        parse("SELECT name, file FROM functions WHERE complexity > 3 ORDER BY line DESC LIMIT 5");

    let plan = plan_select(&statement).expect("query should plan");

    assert_eq!(
        plan.sql,
        "SELECT name, file FROM functions WHERE (complexity > 3) ORDER BY line DESC LIMIT 5"
    );
}

#[test]
fn renders_join_query() {
    let statement = parse(
        "SELECT functions.name, calls.callee FROM functions JOIN calls ON functions.name = calls.caller",
    );

    let plan = plan_select(&statement).expect("join should plan");

    assert_eq!(
        plan.sql,
        "SELECT functions.name, calls.callee FROM functions JOIN calls ON (functions.name = calls.caller)"
    );
}

#[test]
fn rejects_invalid_identifier() {
    let statement = SelectStatement {
        select: vec![SelectItem::Column { name: "bad-name".to_string(), alias: None }],
        distinct: false,
        from: TableRef { name: "functions".to_string(), alias: None },
        joins: Vec::new(),
        where_clause: None,
        group_by: Vec::new(),
        having: None,
        order_by: Vec::new(),
        limit: None,
    };

    let error = plan_select(&statement).expect_err("bad identifier should fail");

    assert_eq!(error.message, "invalid identifier: bad-name");
}

#[test]
fn renders_every_clause() {
    let statement = parse(
        "SELECT DISTINCT f.name AS n, * FROM functions AS f JOIN calls AS c ON f.name = c.caller \
         WHERE f.line BETWEEN 1 AND 9 AND c.callee NOT IN ('a''b', 'c') AND f.file IS NOT NULL \
         GROUP BY f.file HAVING NOT f.has_test = true ORDER BY f.line ASC, n DESC LIMIT 3",
    );

    let plan = plan_select(&statement).expect("query should plan");

    assert_eq!(
        plan.sql,
        "SELECT DISTINCT f.name AS n, * FROM functions AS f JOIN calls AS c ON (f.name = c.caller) \
         WHERE (((f.line BETWEEN 1 AND 9) AND (c.callee NOT IN ('a''b', 'c'))) AND (f.file IS NOT NULL)) \
         GROUP BY f.file HAVING (NOT (f.has_test = true)) ORDER BY f.line ASC, n DESC LIMIT 3"
    );
}

#[test]
fn reports_the_first_invalid_identifier_in_text_order() {
    let statement = parse("SELECT name FROM functions WHERE complexity > 3");
    let mut statement = statement;
    statement.from = TableRef { name: "bad table".to_string(), alias: Some("ok".to_string()) };
    statement.group_by = vec!["also bad".to_string()];

    let error = plan_select(&statement).expect_err("bad identifiers should fail");

    assert_eq!(error.message, "invalid identifier: bad table");
}

#[test]
fn dotted_names_are_checked_per_segment() {
    assert!(ql::plan::is_valid_identifier("functions.name"));
    assert!(ql::plan::is_valid_identifier("_x9"));
    assert!(!ql::plan::is_valid_identifier("functions."));
    assert!(!ql::plan::is_valid_identifier(".name"));
    assert!(!ql::plan::is_valid_identifier("9lives"));
    assert!(!ql::plan::is_valid_identifier(""));
}
