use vstd::prelude::*;

use crate::sql::ast::{
    expr_view, exprs_view, joins_view, literal_view, opt_expr_view, opt_str_view, order_bys_view,
    order_by_view, select_item_view, select_items_view, select_view, strings_view, table_ref_view, BinaryOperator, Expr, Join,
    Literal, OrderBy, OrderDirection, SelectItem, SelectStatement, SpecExpr, SpecJoin, SpecLiteral,
    SpecOrderBy, SpecSelect, SpecSelectItem, SpecTableRef, TableRef, UnaryOperator,
};
use crate::sql::lexer::{ident_end, lex_from, SpecToken, SpecTokenKind, reveal_keywords, spec_keyword_or_identifier, spec_lex, spec_scan_token, upper_chars};
use crate::sql::parser::{binop_of, sp_peek_infix};
use crate::text::{bytes_chars, decimal, push_char, push_decimal, push_str};
use vstd::string::StrSliceExecFns;

verus! {

/// The SQL text that a statement renders to.
#[derive(Debug, Clone, PartialEq, Eq)]
pub struct PlannedQuery {
    pub sql: String,
}

#[derive(Debug, Clone, PartialEq, Eq)]
pub struct PlanError {
    pub message: String,
}

// ---------------------------------------------------------------------------
// Identifiers.
// ---------------------------------------------------------------------------

pub open spec fn is_name_start(c: char) -> bool {
    let u = c as u32;
    (65 <= u <= 90) || (97 <= u <= 122) || u == 95
}

pub open spec fn is_name_char(c: char) -> bool {
    let u = c as u32;
    is_name_start(c) || (48 <= u <= 57)
}

/// A name, or a dotted path of names, each `[A-Za-z_][A-Za-z0-9_]*`. Only such text is
/// ever placed unquoted into the rendered SQL.
pub open spec fn valid_identifier(s: Seq<char>) -> bool {
    &&& s.len() > 0
    &&& is_name_start(s[0])
    &&& forall|i: int| 0 <= i < s.len() ==> is_name_char(#[trigger] s[i]) || s[i] == '.'
    &&& forall|i: int| 0 <= i < s.len() ==> #[trigger] dot_followed_by_name(s, i)
}

/// A dot at `i` is followed by the start of a name.
pub open spec fn dot_followed_by_name(s: Seq<char>, i: int) -> bool {
    s[i] == '.' ==> i + 1 < s.len() && is_name_start(s[i + 1])
}

// ---------------------------------------------------------------------------
// The identifiers of a statement, in rendering order.
// ---------------------------------------------------------------------------

pub open spec fn opt_seq(o: Option<Seq<char>>) -> Seq<Seq<char>> {
    match o {
        Some(s) => seq![s],
        None => Seq::empty(),
    }
}

pub open spec fn expr_idents(e: SpecExpr) -> Seq<Seq<char>>
    decreases e,
{
    match e {
        SpecExpr::Identifier(s) => seq![s],
        SpecExpr::Literal(_) => Seq::empty(),
        SpecExpr::Unary { expr, .. } => expr_idents(*expr),
        SpecExpr::Binary { left, right, .. } => expr_idents(*left) + expr_idents(*right),
        SpecExpr::InList { expr, values, .. } => expr_idents(*expr) + list_idents(values),
        SpecExpr::Between { expr, low, high, .. } => expr_idents(*expr) + expr_idents(*low)
            + expr_idents(*high),
        SpecExpr::IsNull { expr, .. } => expr_idents(*expr),
    }
}

pub open spec fn list_idents(v: Seq<SpecExpr>) -> Seq<Seq<char>>
    decreases v,
{
    if v.len() == 0 {
        Seq::empty()
    } else {
        list_idents(v.drop_last()) + expr_idents(v.last())
    }
}

pub open spec fn opt_expr_idents(e: Option<SpecExpr>) -> Seq<Seq<char>> {
    match e {
        Some(x) => expr_idents(x),
        None => Seq::empty(),
    }
}

pub open spec fn item_idents(item: SpecSelectItem) -> Seq<Seq<char>> {
    match item {
        SpecSelectItem::Wildcard => Seq::empty(),
        SpecSelectItem::Column { name, alias } => seq![name] + opt_seq(alias),
    }
}

pub open spec fn table_idents(t: SpecTableRef) -> Seq<Seq<char>> {
    seq![t.name] + opt_seq(t.alias)
}

pub open spec fn join_idents(j: SpecJoin) -> Seq<Seq<char>> {
    table_idents(j.table) + expr_idents(j.on)
}

/// The identifiers of each element of `v`, one element after the other.
pub open spec fn flat_map<A>(v: Seq<A>, g: spec_fn(A) -> Seq<Seq<char>>) -> Seq<Seq<char>>
    decreases v.len(),
{
    if v.len() == 0 {
        Seq::empty()
    } else {
        flat_map(v.drop_last(), g) + g(v.last())
    }
}

/// Every identifier of the statement, in the order in which the SQL text shows them.
pub open spec fn select_idents(s: SpecSelect) -> Seq<Seq<char>> {
    flat_map(s.select, |x: SpecSelectItem| item_idents(x)) + table_idents(s.from) + flat_map(
        s.joins,
        |j: SpecJoin| join_idents(j),
    ) + opt_expr_idents(s.where_clause) + flat_map(s.group_by, |c: Seq<char>| seq![c])
        + opt_expr_idents(s.having) + flat_map(s.order_by, |o: SpecOrderBy| seq![o.column])
}

/// The first identifier that is not valid, if any.
pub open spec fn first_invalid(v: Seq<Seq<char>>) -> Option<Seq<char>>
    decreases v.len(),
{
    if v.len() == 0 {
        None
    } else if !valid_identifier(v[0]) {
        Some(v[0])
    } else {
        first_invalid(v.drop_first())
    }
}

// ---------------------------------------------------------------------------
// Rendering.
// ---------------------------------------------------------------------------

/// A string literal in single quotes, each quote inside doubled.
pub open spec fn quote_body(s: Seq<char>) -> Seq<char>
    decreases s.len(),
{
    if s.len() == 0 {
        Seq::empty()
    } else {
        quote_body(s.drop_last()) + if s.last() == '\'' {
            seq!['\'', '\'']
        } else {
            seq![s.last()]
        }
    }
}

pub open spec fn render_literal(l: SpecLiteral) -> Seq<char> {
    match l {
        SpecLiteral::Integer(v) => decimal(v as nat),
        SpecLiteral::Str(s) => seq!['\''] + quote_body(s) + seq!['\''],
        SpecLiteral::Boolean(b) => if b {
            "true"@
        } else {
            "false"@
        },
        SpecLiteral::Null => "NULL"@,
    }
}

pub open spec fn binop_text(op: BinaryOperator) -> Seq<char> {
    match op {
        BinaryOperator::Or => "OR"@,
        BinaryOperator::And => "AND"@,
        BinaryOperator::Eq => "="@,
        BinaryOperator::NotEq => "!="@,
        BinaryOperator::Gt => ">"@,
        BinaryOperator::Lt => "<"@,
        BinaryOperator::Gte => ">="@,
        BinaryOperator::Lte => "<="@,
        BinaryOperator::Like => "LIKE"@,
    }
}

/// Every compound expression is rendered in parentheses, so the text does not depend
/// on operator precedence.
pub open spec fn render_expr(e: SpecExpr) -> Seq<char>
    decreases e,
{
    match e {
        SpecExpr::Identifier(s) => s,
        SpecExpr::Literal(l) => render_literal(l),
        SpecExpr::Unary { expr, .. } => "(NOT "@ + render_expr(*expr) + ")"@,
        SpecExpr::Binary { left, operator, right } => "("@ + render_expr(*left) + " "@
            + binop_text(operator) + " "@ + render_expr(*right) + ")"@,
        SpecExpr::InList { expr, values, negated } => "("@ + render_expr(*expr) + (if negated {
            " NOT IN ("@
        } else {
            " IN ("@
        }) + render_list(values) + "))"@,
        SpecExpr::Between { expr, low, high, negated } => "("@ + render_expr(*expr) + (if negated {
            " NOT BETWEEN "@
        } else {
            " BETWEEN "@
        }) + render_expr(*low) + " AND "@ + render_expr(*high) + ")"@,
        SpecExpr::IsNull { expr, negated } => "("@ + render_expr(*expr) + (if negated {
            " IS NOT NULL)"@
        } else {
            " IS NULL)"@
        }),
    }
}

/// Expressions separated by `", "`.
pub open spec fn render_list(v: Seq<SpecExpr>) -> Seq<char>
    decreases v,
{
    if v.len() == 0 {
        Seq::empty()
    } else if v.len() == 1 {
        render_expr(v[0])
    } else {
        render_list(v.drop_last()) + ", "@ + render_expr(v.last())
    }
}

pub open spec fn alias_text(a: Option<Seq<char>>) -> Seq<char> {
    match a {
        Some(s) => " AS "@ + s,
        None => Seq::empty(),
    }
}

pub open spec fn render_item(item: SpecSelectItem) -> Seq<char> {
    match item {
        SpecSelectItem::Wildcard => "*"@,
        SpecSelectItem::Column { name, alias } => name + alias_text(alias),
    }
}

pub open spec fn render_items(v: Seq<SpecSelectItem>) -> Seq<char>
    decreases v.len(),
{
    if v.len() == 0 {
        Seq::empty()
    } else if v.len() == 1 {
        render_item(v[0])
    } else {
        render_items(v.drop_last()) + ", "@ + render_item(v.last())
    }
}

pub open spec fn render_table(t: SpecTableRef) -> Seq<char> {
    t.name + alias_text(t.alias)
}

pub open spec fn render_joins(v: Seq<SpecJoin>) -> Seq<char>
    decreases v.len(),
{
    if v.len() == 0 {
        Seq::empty()
    } else {
        render_joins(v.drop_last()) + " JOIN "@ + render_table(v.last().table) + " ON "@
            + render_expr(v.last().on)
    }
}

pub open spec fn render_names(v: Seq<Seq<char>>) -> Seq<char>
    decreases v.len(),
{
    if v.len() == 0 {
        Seq::empty()
    } else if v.len() == 1 {
        v[0]
    } else {
        render_names(v.drop_last()) + ", "@ + v.last()
    }
}

pub open spec fn render_order(o: SpecOrderBy) -> Seq<char> {
    o.column + match o.direction {
        OrderDirection::Asc => " ASC"@,
        OrderDirection::Desc => " DESC"@,
    }
}

pub open spec fn render_orders(v: Seq<SpecOrderBy>) -> Seq<char>
    decreases v.len(),
{
    if v.len() == 0 {
        Seq::empty()
    } else if v.len() == 1 {
        render_order(v[0])
    } else {
        render_orders(v.drop_last()) + ", "@ + render_order(v.last())
    }
}

pub open spec fn opt_clause(keyword: Seq<char>, e: Option<SpecExpr>) -> Seq<char> {
    match e {
        Some(x) => keyword + render_expr(x),
        None => Seq::empty(),
    }
}

/// The SQL text of a statement; optional clauses appear only when present.
pub open spec fn render_select(s: SpecSelect) -> Seq<char> {
    "SELECT "@ + (if s.distinct {
        "DISTINCT "@
    } else {
        Seq::empty()
    }) + render_items(s.select) + " FROM "@ + render_table(s.from) + render_joins(s.joins)
        + opt_clause(" WHERE "@, s.where_clause) + (if s.group_by.len() > 0 {
        " GROUP BY "@ + render_names(s.group_by)
    } else {
        Seq::empty()
    }) + opt_clause(" HAVING "@, s.having) + (if s.order_by.len() > 0 {
        " ORDER BY "@ + render_orders(s.order_by)
    } else {
        Seq::empty()
    }) + match s.limit {
        Some(n) => " LIMIT "@ + decimal(n as nat),
        None => Seq::empty(),
    }
}

/// Planning a statement: its SQL text, unless some identifier is not a plain (dotted)
/// name, in which case the first such identifier is reported.
pub open spec fn spec_plan(s: SpecSelect) -> Result<Seq<char>, Seq<char>> {
    match first_invalid(select_idents(s)) {
        Some(bad) => Err("invalid identifier: "@ + bad),
        None => Ok(render_select(s)),
    }
}

// ---------------------------------------------------------------------------
// Lemmas.
// ---------------------------------------------------------------------------

proof fn lemma_first_invalid_concat(a: Seq<Seq<char>>, b: Seq<Seq<char>>)
    ensures
        first_invalid(a + b) == if first_invalid(a) is Some {
            first_invalid(a)
        } else {
            first_invalid(b)
        },
    decreases a.len(),
{
    if a.len() == 0 {
        assert(a + b =~= b);
    } else {
        assert((a + b).drop_first() =~= a.drop_first() + b);
        lemma_first_invalid_concat(a.drop_first(), b);
    }
}

/// `r` reports the first invalid identifier of `ids`, or succeeds when there is none.
pub open spec fn reports_first_invalid(ids: Seq<Seq<char>>, r: Result<(), PlanError>) -> bool {
    match first_invalid(ids) {
        None => r is Ok,
        Some(bad) => r matches Err(e) && e.message@ == "invalid identifier: "@ + bad,
    }
}

proof fn lemma_reports_concat(a: Seq<Seq<char>>, b: Seq<Seq<char>>, r: Result<(), PlanError>)
    requires
        first_invalid(a) is None,
        reports_first_invalid(b, r),
    ensures
        reports_first_invalid(a + b, r),
{
    lemma_first_invalid_concat(a, b);
}

proof fn lemma_reports_prefix(a: Seq<Seq<char>>, b: Seq<Seq<char>>, r: Result<(), PlanError>)
    requires
        reports_first_invalid(a, r),
        r is Err,
    ensures
        reports_first_invalid(a + b, r),
{
    lemma_first_invalid_concat(a, b);
}

proof fn lemma_first_invalid(v: Seq<Seq<char>>)
    ensures
        first_invalid(v) is None <==> forall|k: int| 0 <= k < v.len() ==> valid_identifier(
            #[trigger] v[k],
        ),
        first_invalid(v) matches Some(bad) ==> exists|k: int|
            0 <= k < v.len() && #[trigger] v[k] == bad && !valid_identifier(bad),
    decreases v.len(),
{
    if v.len() > 0 {
        let rest = v.drop_first();
        lemma_first_invalid(rest);
        if valid_identifier(v[0]) {
            assert forall|k: int| 0 <= k < v.len() && (forall|j: int| 0 <= j < rest.len() ==> valid_identifier(
                #[trigger] rest[j],
            )) implies valid_identifier(#[trigger] v[k]) by {
                if k > 0 {
                    assert(v[k] == rest[k - 1]);
                }
            }
            if first_invalid(v) is None {
                assert forall|j: int| 0 <= j < rest.len() implies valid_identifier(
                    #[trigger] rest[j],
                ) by {
                    assert(rest[j] == v[j + 1]);
                }
            } else {
                let bad = first_invalid(v)->0;
                let k = choose|k: int| 0 <= k < rest.len() && #[trigger] rest[k] == bad
                    && !valid_identifier(bad);
                assert(v[k + 1] == bad);
            }
        } else {
            assert(v[0] == first_invalid(v)->0);
        }
    }
}

/// A statement is planned exactly when every identifier it holds is valid; a refused one
/// is refused with the message naming one of its identifiers that is not.
pub proof fn lemma_plan_checks_identifiers(s: SpecSelect)
    ensures
        spec_plan(s) is Ok <==> forall|k: int|
            0 <= k < select_idents(s).len() ==> valid_identifier(#[trigger] select_idents(s)[k]),
        spec_plan(s) matches Err(message) ==> exists|k: int|
            0 <= k < select_idents(s).len() && !valid_identifier(#[trigger] select_idents(s)[k])
                && message == "invalid identifier: "@ + select_idents(s)[k],
{
    lemma_first_invalid(select_idents(s));
}

// ---------------------------------------------------------------------------
// Validation.
// ---------------------------------------------------------------------------

fn name_start_code(u: u32) -> (r: bool)
    ensures
        r == ((65 <= u <= 90) || (97 <= u <= 122) || u == 95),
{
    (65 <= u && u <= 90) || (97 <= u && u <= 122) || u == 95
}

/// Whether `s` is a plain name or a dotted path of names.
pub fn is_valid_identifier(s: &str) -> (r: bool)
    ensures
        r == valid_identifier(s@),
{
    let n = s.unicode_len();
    if n == 0 {
        return false;
    }
    if !name_start_code(s.get_char(0) as u32) {
        return false;
    }
    let mut i: usize = 0;
    while i < n
        invariant
            n == s@.len(),
            0 < n,
            i <= n,
            is_name_start(s@[0]),
            forall|j: int| 0 <= j < i ==> is_name_char(#[trigger] s@[j]) || s@[j] == '.',
            forall|j: int| 0 <= j < i ==> #[trigger] dot_followed_by_name(s@, j),
        decreases n - i,
    {
        let c = s.get_char(i);
        if c == '.' {
            if i + 1 >= n {
                assert(!dot_followed_by_name(s@, i as int));
                return false;
            }
            if !name_start_code(s.get_char(i + 1) as u32) {
                assert(!dot_followed_by_name(s@, i as int));
                return false;
            }
        } else {
            let u = c as u32;
            if !(name_start_code(u) || (48 <= u && u <= 57)) {
                assert(!is_name_char(s@[i as int]));
                return false;
            }
        }
        i = i + 1;
    }
    true
}

fn check_identifier(s: &String) -> (r: Result<(), PlanError>)
    ensures
        reports_first_invalid(seq![s@], r),
{
    let ghost ids = seq![s@];
    assert(ids.drop_first() =~= Seq::<Seq<char>>::empty());
    assert(first_invalid(Seq::<Seq<char>>::empty()) is None);
    if is_valid_identifier(s.as_str()) {
        Ok(())
    } else {
        let mut message = "invalid identifier: ".to_owned();
        push_str(&mut message, s.as_str());
        Err(PlanError { message })
    }
}

fn check_optional(s: &Option<String>) -> (r: Result<(), PlanError>)
    ensures
        reports_first_invalid(opt_seq(opt_str_view(*s)), r),
{
    match s {
        Some(v) => check_identifier(v),
        None => Ok(()),
    }
}

fn check_table(t: &TableRef) -> (r: Result<(), PlanError>)
    ensures
        reports_first_invalid(table_idents(table_ref_view(*t)), r),
{
    let r1 = check_identifier(&t.name);
    if r1.is_err() {
        proof {
            lemma_reports_prefix(seq![t.name@], opt_seq(opt_str_view(t.alias)), r1);
        }
        return r1;
    }
    let r2 = check_optional(&t.alias);
    proof {
        lemma_reports_concat(seq![t.name@], opt_seq(opt_str_view(t.alias)), r2);
    }
    r2
}

#[verifier::loop_isolation(false)]
fn check_expr(e: &Expr) -> (r: Result<(), PlanError>)
    ensures
        reports_first_invalid(expr_idents(expr_view(*e)), r),
    decreases e,
{
    match e {
        Expr::Identifier(s) => check_identifier(s),
        Expr::Literal(_) => Ok(()),
        Expr::Unary { expr, .. } => check_expr(&**expr),
        Expr::IsNull { expr, .. } => check_expr(&**expr),
        Expr::Binary { left, right, .. } => {
            let r1 = check_expr(&**left);
            if r1.is_err() {
                proof {
                    lemma_reports_prefix(
                        expr_idents(expr_view(**left)),
                        expr_idents(expr_view(**right)),
                        r1,
                    );
                }
                return r1;
            }
            let r2 = check_expr(&**right);
            proof {
                lemma_reports_concat(
                    expr_idents(expr_view(**left)),
                    expr_idents(expr_view(**right)),
                    r2,
                );
            }
            r2
        },
        Expr::Between { expr, low, high, .. } => {
            let ghost a = expr_idents(expr_view(**expr));
            let ghost b = expr_idents(expr_view(**low));
            let ghost c = expr_idents(expr_view(**high));
            let r1 = check_expr(&**expr);
            if r1.is_err() {
                proof {
                    lemma_reports_prefix(a, b, r1);
                    lemma_reports_prefix(a + b, c, r1);
                }
                return r1;
            }
            let r2 = check_expr(&**low);
            if r2.is_err() {
                proof {
                    lemma_reports_concat(a, b, r2);
                    lemma_reports_prefix(a + b, c, r2);
                }
                return r2;
            }
            let r3 = check_expr(&**high);
            proof {
                lemma_reports_concat(a, b, r2);
                lemma_first_invalid_concat(a, b);
                lemma_reports_concat(a + b, c, r3);
            }
            r3
        },
        Expr::InList { expr, values, .. } => {
            let ghost a = expr_idents(expr_view(**expr));
            let ghost vs = exprs_view(values@);
            let r1 = check_expr(&**expr);
            if r1.is_err() {
                proof {
                    lemma_reports_prefix(a, list_idents(vs), r1);
                }
                return r1;
            }
            let mut i: usize = 0;
            proof {
                lemma_exprs_view_len(values@);
                assert(vs.subrange(0, 0) =~= Seq::<SpecExpr>::empty());
                assert(list_idents(Seq::<SpecExpr>::empty()) =~= Seq::<Seq<char>>::empty());
            }
            while i < values.len()
                invariant
                    vs == exprs_view(values@),
                    vs.len() == values@.len(),
                    i <= values@.len(),
                    first_invalid(list_idents(vs.subrange(0, i as int))) is None,
                    first_invalid(a) is None,
                decreases values@.len() - i,
            {
                proof {
                    lemma_exprs_view_index(values@, i as int);
                    vstd::std_specs::vec::axiom_vec_index_decreases(*values, i as int);
                }
                let ghost pre = list_idents(vs.subrange(0, i as int));
                let ghost cur = expr_idents(vs[i as int]);
                assert(vs.subrange(0, i + 1).drop_last() =~= vs.subrange(0, i as int));
                assert(vs.subrange(0, i + 1).last() == vs[i as int]);
                assert(list_idents(vs.subrange(0, i + 1)) == pre + cur);
                assert(decreases_to!(*e => *values));
                assert(decreases_to!(*values => values@[i as int]));
                let ri = check_expr(&values[i]);
                if ri.is_err() {
                    proof {
                        lemma_reports_concat(pre, cur, ri);
                        lemma_reports_prefix(
                            list_idents(vs.subrange(0, i + 1)),
                            list_idents(vs.subrange(i + 1, vs.len() as int)),
                            ri,
                        );
                        lemma_list_idents_split(vs, i + 1);
                        lemma_reports_concat(a, list_idents(vs), ri);
                    }
                    return ri;
                }
                proof {
                    lemma_first_invalid_concat(pre, cur);
                }
                i = i + 1;
            }
            proof {
                assert(vs.subrange(0, vs.len() as int) =~= vs);
                lemma_first_invalid_concat(a, list_idents(vs));
            }
            Ok(())
        },
    }
}

proof fn lemma_exprs_view_index(v: Seq<Expr>, i: int)
    requires
        0 <= i < v.len(),
    ensures
        exprs_view(v).len() == v.len(),
        exprs_view(v)[i] == expr_view(v[i]),
    decreases v.len(),
{
    lemma_exprs_view_len(v);
    if i < v.len() - 1 {
        lemma_exprs_view_index(v.drop_last(), i);
    }
}

proof fn lemma_exprs_view_len(v: Seq<Expr>)
    ensures
        exprs_view(v).len() == v.len(),
    decreases v.len(),
{
    if v.len() > 0 {
        lemma_exprs_view_len(v.drop_last());
    }
}

/// The identifiers of a list are those of a prefix followed by those of the rest.
proof fn lemma_list_idents_split(v: Seq<SpecExpr>, k: int)
    requires
        0 <= k <= v.len(),
    ensures
        list_idents(v) == list_idents(v.subrange(0, k)) + list_idents(v.subrange(k, v.len() as int)),
    decreases v.len() - k,
{
    if k == v.len() {
        assert(v.subrange(0, k) =~= v);
        assert(list_idents(v.subrange(k, v.len() as int)) =~= Seq::<Seq<char>>::empty()) by {
            assert(v.subrange(k, v.len() as int) =~= Seq::<SpecExpr>::empty());
        }
        assert(list_idents(v) + Seq::<Seq<char>>::empty() =~= list_idents(v));
    } else {
        lemma_list_idents_split(v, k + 1);
        let rest = v.subrange(k, v.len() as int);
        let rest1 = v.subrange(k + 1, v.len() as int);
        lemma_list_idents_cons(v[k], rest1);
        assert(rest =~= seq![v[k]] + rest1);
        assert(v.subrange(0, k + 1).drop_last() =~= v.subrange(0, k));
        assert(list_idents(v.subrange(0, k + 1)) == list_idents(v.subrange(0, k)) + expr_idents(
            v[k],
        ));
        assert(list_idents(v) == list_idents(v.subrange(0, k)) + expr_idents(v[k]) + list_idents(
            rest1,
        ));
        assert(list_idents(v.subrange(0, k)) + expr_idents(v[k]) + list_idents(rest1)
            =~= list_idents(v.subrange(0, k)) + (expr_idents(v[k]) + list_idents(rest1)));
    }
}

proof fn lemma_list_idents_cons(x: SpecExpr, rest: Seq<SpecExpr>)
    ensures
        list_idents(seq![x] + rest) == expr_idents(x) + list_idents(rest),
    decreases rest.len(),
{
    if rest.len() == 0 {
        assert(seq![x] + rest =~= seq![x]);
        assert(seq![x].drop_last() =~= Seq::<SpecExpr>::empty());
        assert(list_idents(Seq::<SpecExpr>::empty()) =~= Seq::<Seq<char>>::empty());
        assert(list_idents(rest) =~= Seq::<Seq<char>>::empty());
        assert(expr_idents(x) + Seq::<Seq<char>>::empty() =~= expr_idents(x));
        assert(Seq::<Seq<char>>::empty() + expr_idents(x) =~= expr_idents(x));
    } else {
        lemma_list_idents_cons(x, rest.drop_last());
        assert((seq![x] + rest).drop_last() =~= seq![x] + rest.drop_last());
        assert((seq![x] + rest).last() == rest.last());
        assert(expr_idents(x) + list_idents(rest.drop_last()) + expr_idents(rest.last())
            =~= expr_idents(x) + (list_idents(rest.drop_last()) + expr_idents(rest.last())));
    }
}

proof fn lemma_flat_map_step<A>(v: Seq<A>, i: int, g: spec_fn(A) -> Seq<Seq<char>>)
    requires
        0 <= i < v.len(),
    ensures
        flat_map(v.subrange(0, i + 1), g) == flat_map(v.subrange(0, i), g) + g(v[i]),
{
    assert(v.subrange(0, i + 1).drop_last() =~= v.subrange(0, i));
    assert(v.subrange(0, i + 1).last() == v[i]);
}

proof fn lemma_flat_map_cons<A>(x: A, rest: Seq<A>, g: spec_fn(A) -> Seq<Seq<char>>)
    ensures
        flat_map(seq![x] + rest, g) == g(x) + flat_map(rest, g),
    decreases rest.len(),
{
    if rest.len() == 0 {
        assert(seq![x] + rest =~= seq![x]);
        assert(seq![x].drop_last() =~= Seq::<A>::empty());
        assert(flat_map(Seq::<A>::empty(), g) =~= Seq::<Seq<char>>::empty());
        assert(flat_map(rest, g) =~= Seq::<Seq<char>>::empty());
        assert(Seq::<Seq<char>>::empty() + g(x) =~= g(x));
        assert(g(x) + Seq::<Seq<char>>::empty() =~= g(x));
    } else {
        lemma_flat_map_cons(x, rest.drop_last(), g);
        assert((seq![x] + rest).drop_last() =~= seq![x] + rest.drop_last());
        assert((seq![x] + rest).last() == rest.last());
        assert(g(x) + flat_map(rest.drop_last(), g) + g(rest.last()) =~= g(x) + (flat_map(
            rest.drop_last(),
            g,
        ) + g(rest.last())));
    }
}

/// The identifiers of a list are those of a prefix followed by those of the rest.
proof fn lemma_flat_map_split<A>(v: Seq<A>, k: int, g: spec_fn(A) -> Seq<Seq<char>>)
    requires
        0 <= k <= v.len(),
    ensures
        flat_map(v, g) == flat_map(v.subrange(0, k), g) + flat_map(
            v.subrange(k, v.len() as int),
            g,
        ),
    decreases v.len() - k,
{
    if k == v.len() {
        assert(v.subrange(0, k) =~= v);
        assert(v.subrange(k, v.len() as int) =~= Seq::<A>::empty());
        assert(flat_map(Seq::<A>::empty(), g) =~= Seq::<Seq<char>>::empty());
        assert(flat_map(v, g) + Seq::<Seq<char>>::empty() =~= flat_map(v, g));
    } else {
        lemma_flat_map_split(v, k + 1, g);
        let rest1 = v.subrange(k + 1, v.len() as int);
        lemma_flat_map_cons(v[k], rest1, g);
        assert(v.subrange(k, v.len() as int) =~= seq![v[k]] + rest1);
        lemma_flat_map_step(v, k, g);
        assert(flat_map(v.subrange(0, k), g) + g(v[k]) + flat_map(rest1, g) =~= flat_map(
            v.subrange(0, k),
            g,
        ) + (g(v[k]) + flat_map(rest1, g)));
    }
}

/// Once an element reports an error, the whole list reports it.
proof fn lemma_flat_map_error<A>(
    v: Seq<A>,
    i: int,
    g: spec_fn(A) -> Seq<Seq<char>>,
    r: Result<(), PlanError>,
)
    requires
        0 <= i < v.len(),
        first_invalid(flat_map(v.subrange(0, i), g)) is None,
        reports_first_invalid(g(v[i]), r),
        r is Err,
    ensures
        reports_first_invalid(flat_map(v, g), r),
{
    lemma_flat_map_step(v, i, g);
    lemma_reports_concat(flat_map(v.subrange(0, i), g), g(v[i]), r);
    lemma_flat_map_split(v, i + 1, g);
    lemma_reports_prefix(
        flat_map(v.subrange(0, i + 1), g),
        flat_map(v.subrange(i + 1, v.len() as int), g),
        r,
    );
}

proof fn lemma_flat_map_ok<A>(v: Seq<A>, i: int, g: spec_fn(A) -> Seq<Seq<char>>)
    requires
        0 <= i < v.len(),
        first_invalid(flat_map(v.subrange(0, i), g)) is None,
        first_invalid(g(v[i])) is None,
    ensures
        first_invalid(flat_map(v.subrange(0, i + 1), g)) is None,
{
    lemma_flat_map_step(v, i, g);
    lemma_first_invalid_concat(flat_map(v.subrange(0, i), g), g(v[i]));
}

proof fn lemma_flat_map_empty<A>(v: Seq<A>, g: spec_fn(A) -> Seq<Seq<char>>)
    ensures
        first_invalid(flat_map(v.subrange(0, 0), g)) is None,
{
    assert(v.subrange(0, 0) =~= Seq::<A>::empty());
    assert(flat_map(Seq::<A>::empty(), g) =~= Seq::<Seq<char>>::empty());
}

fn check_items(items: &Vec<SelectItem>) -> (r: Result<(), PlanError>)
    ensures
        reports_first_invalid(
            flat_map(select_items_view(items@), |x: SpecSelectItem| item_idents(x)),
            r,
        ),
{
    let ghost v = select_items_view(items@);
    let ghost g = |x: SpecSelectItem| item_idents(x);
    proof {
        lemma_flat_map_empty(v, g);
    }
    let mut i: usize = 0;
    while i < items.len()
        invariant
            v == select_items_view(items@),
            g == (|x: SpecSelectItem| item_idents(x)),
            i <= items@.len(),
            first_invalid(flat_map(v.subrange(0, i as int), g)) is None,
        decreases items@.len() - i,
    {
        let ri = match &items[i] {
            SelectItem::Wildcard => Ok(()),
            SelectItem::Column { name, alias } => {
                let r1 = check_identifier(name);
                if r1.is_err() {
                    proof {
                        lemma_reports_prefix(seq![name@], opt_seq(opt_str_view(*alias)), r1);
                    }
                    r1
                } else {
                    let r2 = check_optional(alias);
                    proof {
                        lemma_reports_concat(seq![name@], opt_seq(opt_str_view(*alias)), r2);
                    }
                    r2
                }
            },
        };
        proof {
            assert(first_invalid(Seq::<Seq<char>>::empty()) is None);
            assert(g(v[i as int]) == item_idents(select_item_view(items@[i as int])));
        }
        if ri.is_err() {
            proof {
                lemma_flat_map_error(v, i as int, g, ri);
            }
            return ri;
        }
        proof {
            lemma_flat_map_ok(v, i as int, g);
        }
        i = i + 1;
    }
    proof {
        assert(v.subrange(0, v.len() as int) =~= v);
    }
    Ok(())
}

fn check_joins(joins: &Vec<Join>) -> (r: Result<(), PlanError>)
    ensures
        reports_first_invalid(flat_map(joins_view(joins@), |j: SpecJoin| join_idents(j)), r),
{
    let ghost v = joins_view(joins@);
    let ghost g = |j: SpecJoin| join_idents(j);
    proof {
        lemma_flat_map_empty(v, g);
    }
    let mut i: usize = 0;
    while i < joins.len()
        invariant
            v == joins_view(joins@),
            g == (|j: SpecJoin| join_idents(j)),
            i <= joins@.len(),
            first_invalid(flat_map(v.subrange(0, i as int), g)) is None,
        decreases joins@.len() - i,
    {
        let join = &joins[i];
        let ghost a = table_idents(table_ref_view(join.table));
        let ghost b = expr_idents(expr_view(join.on));
        let r1 = check_table(&join.table);
        let ri = if r1.is_err() {
            proof {
                lemma_reports_prefix(a, b, r1);
            }
            r1
        } else {
            let r2 = check_expr(&join.on);
            proof {
                lemma_reports_concat(a, b, r2);
            }
            r2
        };
        if ri.is_err() {
            proof {
                lemma_flat_map_error(v, i as int, g, ri);
            }
            return ri;
        }
        proof {
            lemma_flat_map_ok(v, i as int, g);
        }
        i = i + 1;
    }
    proof {
        assert(v.subrange(0, v.len() as int) =~= v);
    }
    Ok(())
}

fn check_names(names: &Vec<String>) -> (r: Result<(), PlanError>)
    ensures
        reports_first_invalid(flat_map(strings_view(names@), |c: Seq<char>| seq![c]), r),
{
    let ghost v = strings_view(names@);
    let ghost g = |c: Seq<char>| seq![c];
    proof {
        lemma_flat_map_empty(v, g);
    }
    let mut i: usize = 0;
    while i < names.len()
        invariant
            v == strings_view(names@),
            g == (|c: Seq<char>| seq![c]),
            i <= names@.len(),
            first_invalid(flat_map(v.subrange(0, i as int), g)) is None,
        decreases names@.len() - i,
    {
        let ri = check_identifier(&names[i]);
        if ri.is_err() {
            proof {
                lemma_flat_map_error(v, i as int, g, ri);
            }
            return ri;
        }
        proof {
            lemma_flat_map_ok(v, i as int, g);
        }
        i = i + 1;
    }
    proof {
        assert(v.subrange(0, v.len() as int) =~= v);
    }
    Ok(())
}

fn check_orders(orders: &Vec<OrderBy>) -> (r: Result<(), PlanError>)
    ensures
        reports_first_invalid(flat_map(order_bys_view(orders@), |o: SpecOrderBy| seq![o.column]), r),
{
    let ghost v = order_bys_view(orders@);
    let ghost g = |o: SpecOrderBy| seq![o.column];
    proof {
        lemma_flat_map_empty(v, g);
    }
    let mut i: usize = 0;
    while i < orders.len()
        invariant
            v == order_bys_view(orders@),
            g == (|o: SpecOrderBy| seq![o.column]),
            i <= orders@.len(),
            first_invalid(flat_map(v.subrange(0, i as int), g)) is None,
        decreases orders@.len() - i,
    {
        let ri = check_identifier(&orders[i].column);
        if ri.is_err() {
            proof {
                lemma_flat_map_error(v, i as int, g, ri);
            }
            return ri;
        }
        proof {
            lemma_flat_map_ok(v, i as int, g);
        }
        i = i + 1;
    }
    proof {
        assert(v.subrange(0, v.len() as int) =~= v);
    }
    Ok(())
}

fn check_optional_expr(e: &Option<Expr>) -> (r: Result<(), PlanError>)
    ensures
        reports_first_invalid(opt_expr_idents(opt_expr_view(*e)), r),
{
    match e {
        Some(x) => check_expr(x),
        None => {
            assert(first_invalid(Seq::<Seq<char>>::empty()) is None);
            Ok(())
        },
    }
}

/// Checks every identifier of a statement, in rendering order.
fn check_statement(s: &SelectStatement) -> (r: Result<(), PlanError>)
    ensures
        reports_first_invalid(select_idents(select_view(*s)), r),
{
    let ghost sv = select_view(*s);
    let ghost p1 = flat_map(sv.select, |x: SpecSelectItem| item_idents(x));
    let ghost p2 = table_idents(sv.from);
    let ghost p3 = flat_map(sv.joins, |j: SpecJoin| join_idents(j));
    let ghost p4 = opt_expr_idents(sv.where_clause);
    let ghost p5 = flat_map(sv.group_by, |c: Seq<char>| seq![c]);
    let ghost p6 = opt_expr_idents(sv.having);
    let ghost p7 = flat_map(sv.order_by, |o: SpecOrderBy| seq![o.column]);
    let ghost rest7 = p1 + p2 + p3 + p4 + p5 + p6;
    assert(select_idents(sv) == p1 + p2 + p3 + p4 + p5 + p6 + p7);
    let r = check_items(&s.select);
    if r.is_err() {
        proof {
            lemma_reports_prefix(p1, p2, r);
            lemma_reports_prefix(p1 + p2, p3, r);
            lemma_reports_prefix(p1 + p2 + p3, p4, r);
            lemma_reports_prefix(p1 + p2 + p3 + p4, p5, r);
            lemma_reports_prefix(p1 + p2 + p3 + p4 + p5, p6, r);
            lemma_reports_prefix(p1 + p2 + p3 + p4 + p5 + p6, p7, r);
        }
        return r;
    }
    let r = check_table(&s.from);
    proof {
        lemma_first_invalid_concat(p1, p2);
    }
    if r.is_err() {
        proof {
            lemma_reports_concat(p1, p2, r);
            lemma_reports_prefix(p1 + p2, p3, r);
            lemma_reports_prefix(p1 + p2 + p3, p4, r);
            lemma_reports_prefix(p1 + p2 + p3 + p4, p5, r);
            lemma_reports_prefix(p1 + p2 + p3 + p4 + p5, p6, r);
            lemma_reports_prefix(p1 + p2 + p3 + p4 + p5 + p6, p7, r);
        }
        return r;
    }
    let r = check_joins(&s.joins);
    proof {
        lemma_first_invalid_concat(p1 + p2, p3);
    }
    if r.is_err() {
        proof {
            lemma_reports_concat(p1 + p2, p3, r);
            lemma_reports_prefix(p1 + p2 + p3, p4, r);
            lemma_reports_prefix(p1 + p2 + p3 + p4, p5, r);
            lemma_reports_prefix(p1 + p2 + p3 + p4 + p5, p6, r);
            lemma_reports_prefix(p1 + p2 + p3 + p4 + p5 + p6, p7, r);
        }
        return r;
    }
    let r = check_optional_expr(&s.where_clause);
    proof {
        lemma_first_invalid_concat(p1 + p2 + p3, p4);
    }
    if r.is_err() {
        proof {
            lemma_reports_concat(p1 + p2 + p3, p4, r);
            lemma_reports_prefix(p1 + p2 + p3 + p4, p5, r);
            lemma_reports_prefix(p1 + p2 + p3 + p4 + p5, p6, r);
            lemma_reports_prefix(p1 + p2 + p3 + p4 + p5 + p6, p7, r);
        }
        return r;
    }
    let r = check_names(&s.group_by);
    proof {
        lemma_first_invalid_concat(p1 + p2 + p3 + p4, p5);
    }
    if r.is_err() {
        proof {
            lemma_reports_concat(p1 + p2 + p3 + p4, p5, r);
            lemma_reports_prefix(p1 + p2 + p3 + p4 + p5, p6, r);
            lemma_reports_prefix(p1 + p2 + p3 + p4 + p5 + p6, p7, r);
        }
        return r;
    }
    let r = check_optional_expr(&s.having);
    proof {
        lemma_first_invalid_concat(p1 + p2 + p3 + p4 + p5, p6);
    }
    if r.is_err() {
        proof {
            lemma_reports_concat(p1 + p2 + p3 + p4 + p5, p6, r);
            lemma_reports_prefix(p1 + p2 + p3 + p4 + p5 + p6, p7, r);
        }
        return r;
    }
    let r = check_orders(&s.order_by);
    proof {
        lemma_reports_concat(p1 + p2 + p3 + p4 + p5 + p6, p7, r);
    }
    r
}


// ---------------------------------------------------------------------------
// Writing the SQL text.
// ---------------------------------------------------------------------------

fn push_quoted(out: &mut String, s: &str)
    ensures
        final(out)@ == old(out)@ + seq!['\''] + quote_body(s@) + seq!['\''],
{
    let ghost start = out@;
    push_char(out, '\'');
    let n = s.unicode_len();
    let mut i: usize = 0;
    proof {
        assert(s@.subrange(0, 0) =~= Seq::<char>::empty());
    }
    while i < n
        invariant
            n == s@.len(),
            i <= n,
            out@ == start + seq!['\''] + quote_body(s@.subrange(0, i as int)),
        decreases n - i,
    {
        let c = s.get_char(i);
        let ghost before = out@;
        proof {
            assert(s@.subrange(0, i + 1).drop_last() =~= s@.subrange(0, i as int));
            assert(s@.subrange(0, i + 1).last() == c);
        }
        if c == '\'' {
            push_char(out, '\'');
            push_char(out, '\'');
            assert(out@ =~= before + seq!['\'', '\'']);
        } else {
            push_char(out, c);
            assert(out@ =~= before + seq![c]);
        }
        i = i + 1;
    }
    proof {
        assert(s@.subrange(0, n as int) =~= s@);
    }
    push_char(out, '\'');
}

/// The bytes of a rendered operator, one per character.
proof fn lemma_operator_bytes(op: BinaryOperator, b: Seq<u8>)
    requires
        bytes_chars(b) == binop_text(op),
    ensures
        b == match op {
            BinaryOperator::Or => seq![79u8, 82],
            BinaryOperator::And => seq![65u8, 78, 68],
            BinaryOperator::Eq => seq![61u8],
            BinaryOperator::NotEq => seq![33u8, 61],
            BinaryOperator::Gt => seq![62u8],
            BinaryOperator::Lt => seq![60u8],
            BinaryOperator::Gte => seq![62u8, 61],
            BinaryOperator::Lte => seq![60u8, 61],
            BinaryOperator::Like => seq![76u8, 73, 75, 69],
        },
{
    reveal_strlit("OR");
    reveal_strlit("AND");
    reveal_strlit("=");
    reveal_strlit("!=");
    reveal_strlit(">");
    reveal_strlit("<");
    reveal_strlit(">=");
    reveal_strlit("<=");
    reveal_strlit("LIKE");
    let t = binop_text(op);
    assert(b.len() == t.len());
    assert forall|k: int| 0 <= k < b.len() implies b[k] as char == t[k] by {
        assert(bytes_chars(b)[k] == t[k]);
    }
    match op {
        BinaryOperator::Or => {
            assert(t[0] == 'O' && t[1] == 'R');
            assert(b =~= seq![79u8, 82]);
        },
        BinaryOperator::And => {
            assert(t[0] == 'A' && t[1] == 'N' && t[2] == 'D');
            assert(b =~= seq![65u8, 78, 68]);
        },
        BinaryOperator::Eq => {
            assert(t[0] == '=');
            assert(b =~= seq![61u8]);
        },
        BinaryOperator::NotEq => {
            assert(t[0] == '!' && t[1] == '=');
            assert(b =~= seq![33u8, 61]);
        },
        BinaryOperator::Gt => {
            assert(t[0] == '>');
            assert(b =~= seq![62u8]);
        },
        BinaryOperator::Lt => {
            assert(t[0] == '<');
            assert(b =~= seq![60u8]);
        },
        BinaryOperator::Gte => {
            assert(t[0] == '>' && t[1] == '=');
            assert(b =~= seq![62u8, 61]);
        },
        BinaryOperator::Lte => {
            assert(t[0] == '<' && t[1] == '=');
            assert(b =~= seq![60u8, 61]);
        },
        BinaryOperator::Like => {
            assert(t[0] == 'L' && t[1] == 'I' && t[2] == 'K' && t[3] == 'E');
            assert(b =~= seq![76u8, 73, 75, 69]);
        },
    }
}

/// The operator that a binary expression is rendered with reads back as that same
/// operator: its text lexes to a single token, which the parser takes for the operator
/// that was rendered. So distinct operators render as distinct texts, and `!=` stays a
/// test for inequality.
pub proof fn lemma_operator_text_reads_back(op: BinaryOperator, b: Seq<u8>)
    requires
        bytes_chars(b) == binop_text(op),
    ensures
        spec_lex(b) is Ok,
        spec_lex(b)->Ok_0.len() == 1,
        sp_peek_infix(spec_lex(b)->Ok_0, 0) matches Some(x) && binop_of(x) == op,
{
    lemma_operator_bytes(op, b);
    let n = b.len() as int;
    assert(lex_from(b, n) == Ok::<Seq<SpecToken>, int>(Seq::empty()));
    match op {
        BinaryOperator::Or | BinaryOperator::And | BinaryOperator::Like => {
            assert(ident_end(b, n) == n);
            assert(ident_end(b, n - 1) == n);
            assert(ident_end(b, n - 2) == n);
            if n > 2 {
                assert(ident_end(b, n - 3) == n);
            }
            if n > 3 {
                assert(ident_end(b, n - 4) == n);
            }
            assert(b.subrange(0, n) =~= b);
            reveal_keywords();
            let up = upper_chars(b);
            match op {
                BinaryOperator::Or => {
                    assert(up =~= "OR"@);
                    assert(spec_keyword_or_identifier(b) == SpecTokenKind::Or);
                },
                BinaryOperator::And => {
                    assert(up =~= "AND"@);
                    assert(spec_keyword_or_identifier(b) == SpecTokenKind::And);
                },
                _ => {
                    assert(up =~= "LIKE"@);
                    assert(spec_keyword_or_identifier(b) == SpecTokenKind::Like);
                },
            }
        },
        _ => {},
    }
    assert(spec_scan_token(b, 0) matches Ok((_, end)) && end == n);
}

/// Distinct operators render as distinct texts.
pub proof fn lemma_operator_texts_distinct(a: BinaryOperator, c: BinaryOperator)
    ensures
        binop_text(a) == binop_text(c) ==> a == c,
{
    reveal_strlit("OR");
    reveal_strlit("AND");
    reveal_strlit("=");
    reveal_strlit("!=");
    reveal_strlit(">");
    reveal_strlit("<");
    reveal_strlit(">=");
    reveal_strlit("<=");
    reveal_strlit("LIKE");
    if binop_text(a) == binop_text(c) {
        let t = binop_text(a);
        assert(t.len() == binop_text(c).len());
        assert(t[0] == binop_text(c)[0]);
        if t.len() > 1 {
            assert(t[1] == binop_text(c)[1]);
        }
    }
}

fn binop_str(op: BinaryOperator) -> (r: &'static str)
    ensures
        r@ == binop_text(op),
{
    match op {
        BinaryOperator::Or => "OR",
        BinaryOperator::And => "AND",
        BinaryOperator::Eq => "=",
        BinaryOperator::NotEq => "!=",
        BinaryOperator::Gt => ">",
        BinaryOperator::Lt => "<",
        BinaryOperator::Gte => ">=",
        BinaryOperator::Lte => "<=",
        BinaryOperator::Like => "LIKE",
    }
}

fn write_literal(out: &mut String, l: &Literal)
    ensures
        final(out)@ == old(out)@ + render_literal(literal_view(*l)),
{
    match l {
        Literal::Integer(v) => push_decimal(out, *v as u128),
        Literal::String(s) => push_quoted(out, s.as_str()),
        Literal::Boolean(b) => {
            if *b {
                push_str(out, "true");
            } else {
                push_str(out, "false");
            }
        },
        Literal::Null => push_str(out, "NULL"),
    }
}

proof fn lemma_render_list_step(v: Seq<SpecExpr>, i: int)
    requires
        0 <= i < v.len(),
    ensures
        render_list(v.subrange(0, i + 1)) == if i == 0 {
            render_expr(v[0])
        } else {
            render_list(v.subrange(0, i)) + ", "@ + render_expr(v[i])
        },
{
    assert(v.subrange(0, i + 1).drop_last() =~= v.subrange(0, i));
    assert(v.subrange(0, i + 1).last() == v[i]);
    assert(v.subrange(0, i + 1)[0] == v[0]);
}

#[verifier::loop_isolation(false)]
fn write_expr(out: &mut String, e: &Expr)
    ensures
        final(out)@ == old(out)@ + render_expr(expr_view(*e)),
    decreases e,
{
    let ghost start = out@;
    match e {
        Expr::Identifier(s) => push_str(out, s.as_str()),
        Expr::Literal(l) => write_literal(out, l),
        Expr::Unary { expr, .. } => {
            push_str(out, "(NOT ");
            write_expr(out, &**expr);
            push_str(out, ")");
            assert(out@ =~= start + render_expr(expr_view(*e)));
        },
        Expr::Binary { left, operator, right } => {
            push_str(out, "(");
            write_expr(out, &**left);
            push_str(out, " ");
            push_str(out, binop_str(*operator));
            push_str(out, " ");
            write_expr(out, &**right);
            push_str(out, ")");
            assert(out@ =~= start + render_expr(expr_view(*e)));
        },
        Expr::IsNull { expr, negated } => {
            push_str(out, "(");
            write_expr(out, &**expr);
            if *negated {
                push_str(out, " IS NOT NULL)");
            } else {
                push_str(out, " IS NULL)");
            }
            assert(out@ =~= start + render_expr(expr_view(*e)));
        },
        Expr::Between { expr, low, high, negated } => {
            push_str(out, "(");
            write_expr(out, &**expr);
            if *negated {
                push_str(out, " NOT BETWEEN ");
            } else {
                push_str(out, " BETWEEN ");
            }
            write_expr(out, &**low);
            push_str(out, " AND ");
            write_expr(out, &**high);
            push_str(out, ")");
            assert(out@ =~= start + render_expr(expr_view(*e)));
        },
        Expr::InList { expr, values, negated } => {
            push_str(out, "(");
            write_expr(out, &**expr);
            if *negated {
                push_str(out, " NOT IN (");
            } else {
                push_str(out, " IN (");
            }
            let ghost mid = out@;
            let ghost vs = exprs_view(values@);
            proof {
                lemma_exprs_view_len(values@);
                assert(vs.subrange(0, 0) =~= Seq::<SpecExpr>::empty());
                assert(mid + render_list(vs.subrange(0, 0)) =~= mid);
            }
            let mut i: usize = 0;
            while i < values.len()
                invariant
                    vs == exprs_view(values@),
                    vs.len() == values@.len(),
                    i <= values@.len(),
                    out@ == mid + render_list(vs.subrange(0, i as int)),
                decreases values@.len() - i,
            {
                proof {
                    lemma_exprs_view_index(values@, i as int);
                    vstd::std_specs::vec::axiom_vec_index_decreases(*values, i as int);
                    lemma_render_list_step(vs, i as int);
                }
                assert(decreases_to!(*e => *values));
                assert(decreases_to!(*values => values@[i as int]));
                let ghost before = out@;
                if i > 0 {
                    push_str(out, ", ");
                }
                write_expr(out, &values[i]);
                assert(out@ =~= mid + render_list(vs.subrange(0, i + 1)));
                i = i + 1;
            }
            proof {
                assert(vs.subrange(0, vs.len() as int) =~= vs);
            }
            push_str(out, "))");
            assert(out@ =~= start + render_expr(expr_view(*e)));
        },
    }
}

fn write_alias(out: &mut String, a: &Option<String>)
    ensures
        final(out)@ == old(out)@ + alias_text(opt_str_view(*a)),
{
    match a {
        Some(s) => {
            let ghost start = out@;
            push_str(out, " AS ");
            push_str(out, s.as_str());
            assert(out@ =~= start + alias_text(opt_str_view(*a)));
        },
        None => {
            assert(old(out)@ + Seq::<char>::empty() =~= old(out)@);
        },
    }
}

fn write_item(out: &mut String, item: &SelectItem)
    ensures
        final(out)@ == old(out)@ + render_item(select_item_view(*item)),
{
    match item {
        SelectItem::Wildcard => push_str(out, "*"),
        SelectItem::Column { name, alias } => {
            let ghost start = out@;
            push_str(out, name.as_str());
            write_alias(out, alias);
            assert(out@ =~= start + render_item(select_item_view(*item)));
        },
    }
}

fn write_items(out: &mut String, items: &Vec<SelectItem>)
    ensures
        final(out)@ == old(out)@ + render_items(select_items_view(items@)),
{
    let ghost start = out@;
    let ghost v = select_items_view(items@);
    proof {
        assert(v.subrange(0, 0) =~= Seq::<SpecSelectItem>::empty());
        assert(start + render_items(v.subrange(0, 0)) =~= start);
    }
    let mut i: usize = 0;
    while i < items.len()
        invariant
            v == select_items_view(items@),
            v.len() == items@.len(),
            i <= items@.len(),
            out@ == start + render_items(v.subrange(0, i as int)),
        decreases items@.len() - i,
    {
        proof {
            assert(v.subrange(0, i + 1).drop_last() =~= v.subrange(0, i as int));
            assert(v.subrange(0, i + 1).last() == v[i as int]);
            assert(v.subrange(0, i + 1)[0] == v[0]);
        }
        if i > 0 {
            push_str(out, ", ");
        }
        write_item(out, &items[i]);
        assert(out@ =~= start + render_items(v.subrange(0, i + 1)));
        i = i + 1;
    }
    proof {
        assert(v.subrange(0, v.len() as int) =~= v);
    }
}

fn write_table(out: &mut String, t: &TableRef)
    ensures
        final(out)@ == old(out)@ + render_table(table_ref_view(*t)),
{
    let ghost start = out@;
    push_str(out, t.name.as_str());
    write_alias(out, &t.alias);
    assert(out@ =~= start + render_table(table_ref_view(*t)));
}

fn write_joins(out: &mut String, joins: &Vec<Join>)
    ensures
        final(out)@ == old(out)@ + render_joins(joins_view(joins@)),
{
    let ghost start = out@;
    let ghost v = joins_view(joins@);
    proof {
        assert(v.subrange(0, 0) =~= Seq::<SpecJoin>::empty());
        assert(start + render_joins(v.subrange(0, 0)) =~= start);
    }
    let mut i: usize = 0;
    while i < joins.len()
        invariant
            v == joins_view(joins@),
            v.len() == joins@.len(),
            i <= joins@.len(),
            out@ == start + render_joins(v.subrange(0, i as int)),
        decreases joins@.len() - i,
    {
        proof {
            assert(v.subrange(0, i + 1).drop_last() =~= v.subrange(0, i as int));
            assert(v.subrange(0, i + 1).last() == v[i as int]);
        }
        let ghost before = out@;
        push_str(out, " JOIN ");
        write_table(out, &joins[i].table);
        push_str(out, " ON ");
        write_expr(out, &joins[i].on);
        assert(out@ =~= start + render_joins(v.subrange(0, i + 1)));
        i = i + 1;
    }
    proof {
        assert(v.subrange(0, v.len() as int) =~= v);
    }
}

fn write_names(out: &mut String, names: &Vec<String>)
    ensures
        final(out)@ == old(out)@ + render_names(crate::sql::ast::strings_view(names@)),
{
    let ghost start = out@;
    let ghost v = crate::sql::ast::strings_view(names@);
    proof {
        assert(v.subrange(0, 0) =~= Seq::<Seq<char>>::empty());
        assert(start + render_names(v.subrange(0, 0)) =~= start);
    }
    let mut i: usize = 0;
    while i < names.len()
        invariant
            v == crate::sql::ast::strings_view(names@),
            v.len() == names@.len(),
            i <= names@.len(),
            out@ == start + render_names(v.subrange(0, i as int)),
        decreases names@.len() - i,
    {
        proof {
            assert(v.subrange(0, i + 1).drop_last() =~= v.subrange(0, i as int));
            assert(v.subrange(0, i + 1).last() == v[i as int]);
            assert(v.subrange(0, i + 1)[0] == v[0]);
        }
        if i > 0 {
            push_str(out, ", ");
        }
        push_str(out, names[i].as_str());
        assert(out@ =~= start + render_names(v.subrange(0, i + 1)));
        i = i + 1;
    }
    proof {
        assert(v.subrange(0, v.len() as int) =~= v);
    }
}

fn write_order(out: &mut String, o: &OrderBy)
    ensures
        final(out)@ == old(out)@ + render_order(order_by_view(*o)),
{
    let ghost start = out@;
    push_str(out, o.column.as_str());
    match o.direction {
        OrderDirection::Asc => push_str(out, " ASC"),
        OrderDirection::Desc => push_str(out, " DESC"),
    }
    assert(out@ =~= start + render_order(order_by_view(*o)));
}

fn write_orders(out: &mut String, orders: &Vec<OrderBy>)
    ensures
        final(out)@ == old(out)@ + render_orders(order_bys_view(orders@)),
{
    let ghost start = out@;
    let ghost v = order_bys_view(orders@);
    proof {
        assert(v.subrange(0, 0) =~= Seq::<SpecOrderBy>::empty());
        assert(start + render_orders(v.subrange(0, 0)) =~= start);
    }
    let mut i: usize = 0;
    while i < orders.len()
        invariant
            v == order_bys_view(orders@),
            v.len() == orders@.len(),
            i <= orders@.len(),
            out@ == start + render_orders(v.subrange(0, i as int)),
        decreases orders@.len() - i,
    {
        proof {
            assert(v.subrange(0, i + 1).drop_last() =~= v.subrange(0, i as int));
            assert(v.subrange(0, i + 1).last() == v[i as int]);
            assert(v.subrange(0, i + 1)[0] == v[0]);
        }
        if i > 0 {
            push_str(out, ", ");
        }
        write_order(out, &orders[i]);
        assert(out@ =~= start + render_orders(v.subrange(0, i + 1)));
        i = i + 1;
    }
    proof {
        assert(v.subrange(0, v.len() as int) =~= v);
    }
}

fn write_opt_clause(out: &mut String, keyword: &str, e: &Option<Expr>)
    ensures
        final(out)@ == old(out)@ + opt_clause(keyword@, opt_expr_view(*e)),
{
    match e {
        Some(x) => {
            let ghost start = out@;
            push_str(out, keyword);
            write_expr(out, x);
            assert(out@ =~= start + opt_clause(keyword@, opt_expr_view(*e)));
        },
        None => {
            assert(old(out)@ + Seq::<char>::empty() =~= old(out)@);
        },
    }
}

/// `SELECT [DISTINCT] items FROM table joins`.
pub open spec fn render_head(s: SpecSelect) -> Seq<char> {
    "SELECT "@ + (if s.distinct {
        "DISTINCT "@
    } else {
        Seq::empty()
    }) + render_items(s.select) + " FROM "@ + render_table(s.from) + render_joins(s.joins)
}

pub open spec fn group_clause(v: Seq<Seq<char>>) -> Seq<char> {
    if v.len() > 0 {
        " GROUP BY "@ + render_names(v)
    } else {
        Seq::empty()
    }
}

pub open spec fn order_clause(v: Seq<SpecOrderBy>) -> Seq<char> {
    if v.len() > 0 {
        " ORDER BY "@ + render_orders(v)
    } else {
        Seq::empty()
    }
}

pub open spec fn limit_clause(l: Option<u64>) -> Seq<char> {
    match l {
        Some(n) => " LIMIT "@ + decimal(n as nat),
        None => Seq::empty(),
    }
}

/// The clauses after the joins.
pub open spec fn render_tail(s: SpecSelect) -> Seq<char> {
    opt_clause(" WHERE "@, s.where_clause) + group_clause(s.group_by) + opt_clause(
        " HAVING "@,
        s.having,
    ) + order_clause(s.order_by) + limit_clause(s.limit)
}

fn write_head(s: &SelectStatement) -> (out: String)
    ensures
        out@ == render_head(select_view(*s)),
{
    let mut out = "SELECT ".to_owned();
    let ghost a = out@;
    if s.distinct {
        push_str(&mut out, "DISTINCT ");
    }
    let ghost b = out@;
    assert(b == "SELECT "@ + (if s.distinct {
        "DISTINCT "@
    } else {
        Seq::empty()
    }));
    write_items(&mut out, &s.select);
    push_str(&mut out, " FROM ");
    write_table(&mut out, &s.from);
    write_joins(&mut out, &s.joins);
    out
}

fn write_group(out: &mut String, names: &Vec<String>)
    ensures
        final(out)@ == old(out)@ + group_clause(crate::sql::ast::strings_view(names@)),
{
    let ghost start = out@;
    if names.len() > 0 {
        push_str(out, " GROUP BY ");
        write_names(out, names);
        assert(out@ =~= start + group_clause(crate::sql::ast::strings_view(names@)));
    } else {
        assert(start + group_clause(crate::sql::ast::strings_view(names@)) =~= start);
    }
}

fn write_order_clause(out: &mut String, orders: &Vec<OrderBy>)
    ensures
        final(out)@ == old(out)@ + order_clause(order_bys_view(orders@)),
{
    let ghost start = out@;
    if orders.len() > 0 {
        push_str(out, " ORDER BY ");
        write_orders(out, orders);
        assert(out@ =~= start + order_clause(order_bys_view(orders@)));
    } else {
        assert(start + order_clause(order_bys_view(orders@)) =~= start);
    }
}

fn write_limit(out: &mut String, limit: Option<u64>)
    ensures
        final(out)@ == old(out)@ + limit_clause(limit),
{
    let ghost start = out@;
    match limit {
        Some(n) => {
            push_str(out, " LIMIT ");
            push_decimal(out, n as u128);
            assert(out@ =~= start + limit_clause(limit));
        },
        None => {
            assert(start + limit_clause(limit) =~= start);
        },
    }
}

fn write_tail(out: &mut String, s: &SelectStatement)
    ensures
        final(out)@ == old(out)@ + render_tail(select_view(*s)),
{
    let ghost start = out@;
    let ghost sv = select_view(*s);
    write_opt_clause(out, " WHERE ", &s.where_clause);
    write_group(out, &s.group_by);
    write_opt_clause(out, " HAVING ", &s.having);
    write_order_clause(out, &s.order_by);
    write_limit(out, s.limit);
    assert(out@ =~= start + render_tail(sv));
}

proof fn lemma_render_select_split(s: SpecSelect)
    ensures
        render_select(s) == render_head(s) + render_tail(s),
{
    assert(render_select(s) =~= render_head(s) + render_tail(s));
}

/// Renders a statement as SQL text after checking each of its identifiers.
pub fn plan_select(statement: &SelectStatement) -> (r: Result<PlannedQuery, PlanError>)
    ensures
        match spec_plan(select_view(*statement)) {
            Ok(text) => r matches Ok(p) && p.sql@ == text,
            Err(message) => r matches Err(e) && e.message@ == message,
        },
{
    let checked = check_statement(statement);
    match checked {
        Err(e) => Err(e),
        Ok(()) => {
            let mut sql = write_head(statement);
            write_tail(&mut sql, statement);
            proof {
                lemma_render_select_split(select_view(*statement));
            }
            Ok(PlannedQuery { sql })
        },
    }
}

} // verus!
