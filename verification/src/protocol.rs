use vstd::prelude::*;

verus! {

/// One value of a query result.
#[derive(Debug, Clone, PartialEq, Eq)]
pub enum Cell {
    Null,
    Bool(bool),
    Integer(i128),
    /// A number that is not an integer, as its JSON text.
    Number(String),
    Text(String),
    /// An array or object, as its JSON text.
    Json(String),
}

/// The columns and rows a query returns.
#[derive(Debug, Clone, PartialEq, Eq)]
pub struct QueryResult {
    pub columns: Vec<String>,
    pub rows: Vec<Vec<Cell>>,
}

} // verus!
