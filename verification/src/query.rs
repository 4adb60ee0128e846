use vstd::prelude::*;

use crate::ast::rows::FunctionRow;
use crate::plan::PlanError;
use crate::protocol::{Cell, QueryResult};
use crate::sql::ast::strings_view;
use crate::text::push_str;

verus! {

/// The columns of the `functions` table, in table order.
pub open spec fn spec_function_columns() -> Seq<Seq<char>> {
    seq![
        "file"@,
        "line"@,
        "name"@,
        "visibility"@,
        "param_count"@,
        "return_type"@,
        "complexity"@,
        "has_test"@,
    ]
}

/// The column names of the `functions` table.
pub fn function_columns() -> (r: Vec<String>)
    ensures
        strings_view(r@) == spec_function_columns(),
{
    let mut r: Vec<String> = Vec::new();
    r.push("file".to_owned());
    r.push("line".to_owned());
    r.push("name".to_owned());
    r.push("visibility".to_owned());
    r.push("param_count".to_owned());
    r.push("return_type".to_owned());
    r.push("complexity".to_owned());
    r.push("has_test".to_owned());
    assert(strings_view(r@) =~= spec_function_columns());
    r
}

/// A function row as cells, in the order of `function_columns`.
pub open spec fn function_cells_match(f: FunctionRow, cells: Seq<Cell>) -> bool {
    &&& cells.len() == 8
    &&& cells[0] matches Cell::Text(s) && s@ == f.file@
    &&& cells[1] == Cell::Integer(f.line as i128)
    &&& cells[2] matches Cell::Text(s) && s@ == f.name@
    &&& cells[3] matches Cell::Text(s) && s@ == f.visibility@
    &&& cells[4] == Cell::Integer(f.param_count as i128)
    &&& cells[5] matches Cell::Text(s) && s@ == f.return_type@
    &&& cells[6] == Cell::Integer(f.complexity as i128)
    &&& cells[7] == Cell::Bool(f.has_test)
}

fn function_cells(f: &FunctionRow) -> (cells: Vec<Cell>)
    ensures
        function_cells_match(*f, cells@),
{
    let mut cells: Vec<Cell> = Vec::new();
    cells.push(Cell::Text(f.file.clone()));
    cells.push(Cell::Integer(f.line as i128));
    cells.push(Cell::Text(f.name.clone()));
    cells.push(Cell::Text(f.visibility.clone()));
    cells.push(Cell::Integer(f.param_count as i128));
    cells.push(Cell::Text(f.return_type.clone()));
    cells.push(Cell::Integer(f.complexity as i128));
    cells.push(Cell::Bool(f.has_test));
    cells
}

/// The result of listing functions: the `functions` columns and one row per function.
pub fn functions_result(rows: &Vec<FunctionRow>) -> (r: QueryResult)
    ensures
        strings_view(r.columns@) == spec_function_columns(),
        r.rows@.len() == rows@.len(),
        forall|i: int| 0 <= i < rows@.len() ==> function_cells_match(rows@[i], #[trigger] r.rows@[i]@),
{
    let mut out: Vec<Vec<Cell>> = Vec::new();
    let mut i: usize = 0;
    while i < rows.len()
        invariant
            i <= rows@.len(),
            out@.len() == i,
            forall|k: int| 0 <= k < i ==> function_cells_match(rows@[k], #[trigger] out@[k]@),
        decreases rows@.len() - i,
    {
        out.push(function_cells(&rows[i]));
        i = i + 1;
    }
    QueryResult { columns: function_columns(), rows: out }
}

/// Why a query could not be run: the planner refused it, or the database failed with the
/// given message.
#[derive(Debug, Clone, PartialEq, Eq)]
pub enum ExecuteError {
    Plan(PlanError),
    DuckDb(String),
}

/// The text shown for an execution error.
pub open spec fn execute_error_text(e: ExecuteError) -> Seq<char> {
    match e {
        ExecuteError::Plan(p) => "error: "@ + p.message@,
        ExecuteError::DuckDb(m) => "internal error: "@ + m@,
    }
}

impl ExecuteError {
    /// The error as it is shown: `error: ` and the planner's message, or `internal
    /// error: ` and the database's.
    pub fn message(&self) -> (r: String)
        ensures
            r@ == execute_error_text(*self),
    {
        let mut r = String::new();
        match self {
            ExecuteError::Plan(p) => {
                push_str(&mut r, "error: ");
                push_str(&mut r, p.message.as_str());
            },
            ExecuteError::DuckDb(m) => {
                push_str(&mut r, "internal error: ");
                push_str(&mut r, m.as_str());
            },
        }
        r
    }
}

impl From<PlanError> for ExecuteError {
    fn from(error: PlanError) -> (r: ExecuteError) {
        ExecuteError::Plan(error)
    }
}

impl vstd::std_specs::convert::FromSpecImpl<PlanError> for ExecuteError {
    open spec fn obeys_from_spec() -> bool {
        true
    }

    open spec fn from_spec(v: PlanError) -> ExecuteError {
        ExecuteError::Plan(v)
    }
}

} // verus!
