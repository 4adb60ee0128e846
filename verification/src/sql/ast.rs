use vstd::prelude::*;

verus! {

#[derive(Debug, PartialEq, Eq)]
pub struct SelectStatement {
    pub select: Vec<SelectItem>,
    pub distinct: bool,
    pub from: TableRef,
    pub joins: Vec<Join>,
    pub where_clause: Option<Expr>,
    pub group_by: Vec<String>,
    pub having: Option<Expr>,
    pub order_by: Vec<OrderBy>,
    pub limit: Option<u64>,
}

#[derive(Debug, Clone, PartialEq, Eq)]
pub enum SelectItem {
    Wildcard,
    Column { name: String, alias: Option<String> },
}

#[derive(Debug, Clone, PartialEq, Eq)]
pub struct TableRef {
    pub name: String,
    pub alias: Option<String>,
}

#[derive(Debug, PartialEq, Eq)]
pub struct Join {
    pub table: TableRef,
    pub on: Expr,
}

#[derive(Debug, Clone, PartialEq, Eq)]
pub struct OrderBy {
    pub column: String,
    pub direction: OrderDirection,
}

#[derive(Debug, Clone, Copy, PartialEq, Eq, Structural)]
pub enum OrderDirection {
    Asc,
    Desc,
}

#[derive(Debug, PartialEq, Eq)]
pub enum Expr {
    Identifier(String),
    Literal(Literal),
    Unary { operator: UnaryOperator, expr: Box<Expr> },
    Binary { left: Box<Expr>, operator: BinaryOperator, right: Box<Expr> },
    InList { expr: Box<Expr>, values: Vec<Expr>, negated: bool },
    Between { expr: Box<Expr>, low: Box<Expr>, high: Box<Expr>, negated: bool },
    IsNull { expr: Box<Expr>, negated: bool },
}

#[derive(Debug, Clone, PartialEq, Eq)]
pub enum Literal {
    Integer(u64),
    String(String),
    Boolean(bool),
    Null,
}

#[derive(Debug, Clone, Copy, PartialEq, Eq, Structural)]
pub enum BinaryOperator {
    Or,
    And,
    Eq,
    NotEq,
    Gt,
    Lt,
    Gte,
    Lte,
    Like,
}

#[derive(Debug, Clone, Copy, PartialEq, Eq, Structural)]
pub enum UnaryOperator {
    Not,
}

// ---------------------------------------------------------------------------
// Mathematical models: every `String` becomes its character sequence.
// ---------------------------------------------------------------------------

pub struct SpecSelect {
    pub select: Seq<SpecSelectItem>,
    pub distinct: bool,
    pub from: SpecTableRef,
    pub joins: Seq<SpecJoin>,
    pub where_clause: Option<SpecExpr>,
    pub group_by: Seq<Seq<char>>,
    pub having: Option<SpecExpr>,
    pub order_by: Seq<SpecOrderBy>,
    pub limit: Option<u64>,
}

pub enum SpecSelectItem {
    Wildcard,
    Column { name: Seq<char>, alias: Option<Seq<char>> },
}

pub struct SpecTableRef {
    pub name: Seq<char>,
    pub alias: Option<Seq<char>>,
}

pub struct SpecJoin {
    pub table: SpecTableRef,
    pub on: SpecExpr,
}

pub struct SpecOrderBy {
    pub column: Seq<char>,
    pub direction: OrderDirection,
}

pub enum SpecLiteral {
    Integer(u64),
    Str(Seq<char>),
    Boolean(bool),
    Null,
}

pub enum SpecExpr {
    Identifier(Seq<char>),
    Literal(SpecLiteral),
    Unary { operator: UnaryOperator, expr: Box<SpecExpr> },
    Binary { left: Box<SpecExpr>, operator: BinaryOperator, right: Box<SpecExpr> },
    InList { expr: Box<SpecExpr>, values: Seq<SpecExpr>, negated: bool },
    Between { expr: Box<SpecExpr>, low: Box<SpecExpr>, high: Box<SpecExpr>, negated: bool },
    IsNull { expr: Box<SpecExpr>, negated: bool },
}

pub open spec fn opt_str_view(s: Option<String>) -> Option<Seq<char>> {
    match s {
        Some(v) => Some(v@),
        None => None,
    }
}

pub open spec fn strings_view(v: Seq<String>) -> Seq<Seq<char>> {
    v.map_values(|s: String| s@)
}

pub open spec fn literal_view(l: Literal) -> SpecLiteral {
    match l {
        Literal::Integer(v) => SpecLiteral::Integer(v),
        Literal::String(s) => SpecLiteral::Str(s@),
        Literal::Boolean(b) => SpecLiteral::Boolean(b),
        Literal::Null => SpecLiteral::Null,
    }
}

pub open spec fn expr_view(e: Expr) -> SpecExpr
    decreases e,
{
    match e {
        Expr::Identifier(s) => SpecExpr::Identifier(s@),
        Expr::Literal(l) => SpecExpr::Literal(literal_view(l)),
        Expr::Unary { operator, expr } => SpecExpr::Unary {
            operator,
            expr: Box::new(expr_view(*expr)),
        },
        Expr::Binary { left, operator, right } => SpecExpr::Binary {
            left: Box::new(expr_view(*left)),
            operator,
            right: Box::new(expr_view(*right)),
        },
        Expr::InList { expr, values, negated } => SpecExpr::InList {
            expr: Box::new(expr_view(*expr)),
            values: exprs_view(values@),
            negated,
        },
        Expr::Between { expr, low, high, negated } => SpecExpr::Between {
            expr: Box::new(expr_view(*expr)),
            low: Box::new(expr_view(*low)),
            high: Box::new(expr_view(*high)),
            negated,
        },
        Expr::IsNull { expr, negated } => SpecExpr::IsNull {
            expr: Box::new(expr_view(*expr)),
            negated,
        },
    }
}

pub open spec fn exprs_view(v: Seq<Expr>) -> Seq<SpecExpr>
    decreases v,
{
    if v.len() == 0 {
        Seq::empty()
    } else {
        exprs_view(v.drop_last()).push(expr_view(v.last()))
    }
}

pub open spec fn opt_expr_view(e: Option<Expr>) -> Option<SpecExpr> {
    match e {
        Some(v) => Some(expr_view(v)),
        None => None,
    }
}

pub open spec fn table_ref_view(t: TableRef) -> SpecTableRef {
    SpecTableRef { name: t.name@, alias: opt_str_view(t.alias) }
}

pub open spec fn select_item_view(s: SelectItem) -> SpecSelectItem {
    match s {
        SelectItem::Wildcard => SpecSelectItem::Wildcard,
        SelectItem::Column { name, alias } => SpecSelectItem::Column {
            name: name@,
            alias: opt_str_view(alias),
        },
    }
}

pub open spec fn select_items_view(v: Seq<SelectItem>) -> Seq<SpecSelectItem> {
    v.map_values(|s: SelectItem| select_item_view(s))
}

pub open spec fn join_view(j: Join) -> SpecJoin {
    SpecJoin { table: table_ref_view(j.table), on: expr_view(j.on) }
}

pub open spec fn joins_view(v: Seq<Join>) -> Seq<SpecJoin> {
    v.map_values(|j: Join| join_view(j))
}

pub open spec fn order_by_view(o: OrderBy) -> SpecOrderBy {
    SpecOrderBy { column: o.column@, direction: o.direction }
}

pub open spec fn order_bys_view(v: Seq<OrderBy>) -> Seq<SpecOrderBy> {
    v.map_values(|o: OrderBy| order_by_view(o))
}

pub open spec fn select_view(s: SelectStatement) -> SpecSelect {
    SpecSelect {
        select: select_items_view(s.select@),
        distinct: s.distinct,
        from: table_ref_view(s.from),
        joins: joins_view(s.joins@),
        where_clause: opt_expr_view(s.where_clause),
        group_by: strings_view(s.group_by@),
        having: opt_expr_view(s.having),
        order_by: order_bys_view(s.order_by@),
        limit: s.limit,
    }
}

impl View for Expr {
    type V = SpecExpr;

    open spec fn view(&self) -> SpecExpr {
        expr_view(*self)
    }
}

impl View for SelectStatement {
    type V = SpecSelect;

    open spec fn view(&self) -> SpecSelect {
        select_view(*self)
    }
}

} // verus!
