use vstd::prelude::*;

use crate::sql::ast::{
    exprs_view, expr_view, join_view, joins_view, opt_expr_view, opt_str_view, order_by_view,
    order_bys_view,
    select_item_view, select_items_view, select_view, strings_view, table_ref_view,
    BinaryOperator, Expr, Join, Literal, OrderBy, OrderDirection, SelectItem, SelectStatement,
    SpecExpr, SpecJoin, SpecLiteral, SpecOrderBy, SpecSelect, SpecSelectItem, SpecTableRef,
    TableRef, UnaryOperator,
};
use crate::sql::diagnostic::{
    diagnostic_text, diagnostics_view, file_model, files_view, labels_view, Diagnostic, Label,
    Severity, SourceFile, Span, SpecDiagnostic, SpecFile, SpecLabel,
};
use crate::sql::lexer::{
    lemma_lex_spans, lex, spec_lex, tokens_view, SpecToken, SpecTokenKind, Token, TokenKind,
};
use crate::text::{push_char, push_str};
use vstd::string::{StringExecFns, StringSliceAdditionalSpecFns};

verus! {

// ---------------------------------------------------------------------------
// Token tags: one number per token kind, payloads ignored.
// ---------------------------------------------------------------------------

pub const TAG_SELECT: u8 = 0;
pub const TAG_DISTINCT: u8 = 1;
pub const TAG_FROM: u8 = 2;
pub const TAG_GROUP: u8 = 3;
pub const TAG_IS: u8 = 4;
pub const TAG_JOIN: u8 = 5;
pub const TAG_ON: u8 = 6;
pub const TAG_WHERE: u8 = 7;
pub const TAG_HAVING: u8 = 8;
pub const TAG_ORDER: u8 = 9;
pub const TAG_BY: u8 = 10;
pub const TAG_LIMIT: u8 = 11;
pub const TAG_ASC: u8 = 12;
pub const TAG_DESC: u8 = 13;
pub const TAG_AS: u8 = 14;
pub const TAG_AND: u8 = 15;
pub const TAG_OR: u8 = 16;
pub const TAG_NOT: u8 = 17;
pub const TAG_IN: u8 = 18;
pub const TAG_NULL: u8 = 19;
pub const TAG_TRUE: u8 = 20;
pub const TAG_FALSE: u8 = 21;
pub const TAG_LIKE: u8 = 22;
pub const TAG_BETWEEN: u8 = 23;
pub const TAG_IDENTIFIER: u8 = 24;
pub const TAG_INTEGER: u8 = 25;
pub const TAG_STRING: u8 = 26;
pub const TAG_COMMA: u8 = 27;
pub const TAG_DOT: u8 = 28;
pub const TAG_LPAREN: u8 = 29;
pub const TAG_RPAREN: u8 = 30;
pub const TAG_SEMICOLON: u8 = 31;
pub const TAG_STAR: u8 = 32;
pub const TAG_EQ: u8 = 33;
pub const TAG_NOT_EQ: u8 = 34;
pub const TAG_GT: u8 = 35;
pub const TAG_LT: u8 = 36;
pub const TAG_GTE: u8 = 37;
pub const TAG_LTE: u8 = 38;

/// Binding power of a prefix `NOT`: one step below the comparison operators, so
/// `NOT active = true` parses as `NOT (active = true)` while `NOT active AND ...`
/// still stops before `AND`.
pub const PREFIX_NOT_BP: u8 = 29;

/// Binding power of the bounds of `BETWEEN`: high enough that the `AND` which
/// separates the bounds is not taken as a boolean operator.
pub const BETWEEN_BOUND_BP: u8 = 31;

pub open spec fn kind_tag(k: SpecTokenKind) -> u8 {
    match k {
        SpecTokenKind::Select => TAG_SELECT,
        SpecTokenKind::Distinct => TAG_DISTINCT,
        SpecTokenKind::From => TAG_FROM,
        SpecTokenKind::Group => TAG_GROUP,
        SpecTokenKind::Is => TAG_IS,
        SpecTokenKind::Join => TAG_JOIN,
        SpecTokenKind::On => TAG_ON,
        SpecTokenKind::Where => TAG_WHERE,
        SpecTokenKind::Having => TAG_HAVING,
        SpecTokenKind::Order => TAG_ORDER,
        SpecTokenKind::By => TAG_BY,
        SpecTokenKind::Limit => TAG_LIMIT,
        SpecTokenKind::Asc => TAG_ASC,
        SpecTokenKind::Desc => TAG_DESC,
        SpecTokenKind::As => TAG_AS,
        SpecTokenKind::And => TAG_AND,
        SpecTokenKind::Or => TAG_OR,
        SpecTokenKind::Not => TAG_NOT,
        SpecTokenKind::In => TAG_IN,
        SpecTokenKind::Null => TAG_NULL,
        SpecTokenKind::True => TAG_TRUE,
        SpecTokenKind::False => TAG_FALSE,
        SpecTokenKind::Like => TAG_LIKE,
        SpecTokenKind::Between => TAG_BETWEEN,
        SpecTokenKind::Identifier(_) => TAG_IDENTIFIER,
        SpecTokenKind::Integer(_) => TAG_INTEGER,
        SpecTokenKind::Str(_) => TAG_STRING,
        SpecTokenKind::Comma => TAG_COMMA,
        SpecTokenKind::Dot => TAG_DOT,
        SpecTokenKind::LParen => TAG_LPAREN,
        SpecTokenKind::RParen => TAG_RPAREN,
        SpecTokenKind::Semicolon => TAG_SEMICOLON,
        SpecTokenKind::Star => TAG_STAR,
        SpecTokenKind::Eq => TAG_EQ,
        SpecTokenKind::NotEq => TAG_NOT_EQ,
        SpecTokenKind::Gt => TAG_GT,
        SpecTokenKind::Lt => TAG_LT,
        SpecTokenKind::Gte => TAG_GTE,
        SpecTokenKind::Lte => TAG_LTE,
    }
}

fn tag_of(k: &TokenKind) -> (r: u8)
    ensures
        r == kind_tag(k@),
{
    match k {
        TokenKind::Select => TAG_SELECT,
        TokenKind::Distinct => TAG_DISTINCT,
        TokenKind::From => TAG_FROM,
        TokenKind::Group => TAG_GROUP,
        TokenKind::Is => TAG_IS,
        TokenKind::Join => TAG_JOIN,
        TokenKind::On => TAG_ON,
        TokenKind::Where => TAG_WHERE,
        TokenKind::Having => TAG_HAVING,
        TokenKind::Order => TAG_ORDER,
        TokenKind::By => TAG_BY,
        TokenKind::Limit => TAG_LIMIT,
        TokenKind::Asc => TAG_ASC,
        TokenKind::Desc => TAG_DESC,
        TokenKind::As => TAG_AS,
        TokenKind::And => TAG_AND,
        TokenKind::Or => TAG_OR,
        TokenKind::Not => TAG_NOT,
        TokenKind::In => TAG_IN,
        TokenKind::Null => TAG_NULL,
        TokenKind::True => TAG_TRUE,
        TokenKind::False => TAG_FALSE,
        TokenKind::Like => TAG_LIKE,
        TokenKind::Between => TAG_BETWEEN,
        TokenKind::Identifier(_) => TAG_IDENTIFIER,
        TokenKind::Integer(_) => TAG_INTEGER,
        TokenKind::String(_) => TAG_STRING,
        TokenKind::Comma => TAG_COMMA,
        TokenKind::Dot => TAG_DOT,
        TokenKind::LParen => TAG_LPAREN,
        TokenKind::RParen => TAG_RPAREN,
        TokenKind::Semicolon => TAG_SEMICOLON,
        TokenKind::Star => TAG_STAR,
        TokenKind::Eq => TAG_EQ,
        TokenKind::NotEq => TAG_NOT_EQ,
        TokenKind::Gt => TAG_GT,
        TokenKind::Lt => TAG_LT,
        TokenKind::Gte => TAG_GTE,
        TokenKind::Lte => TAG_LTE,
    }
}

/// Clause keywords at which error recovery resumes parsing.
pub open spec fn is_boundary_tag(tag: u8) -> bool {
    tag == TAG_FROM || tag == TAG_GROUP || tag == TAG_JOIN || tag == TAG_WHERE || tag
        == TAG_HAVING || tag == TAG_ORDER || tag == TAG_LIMIT || tag == TAG_SEMICOLON
}

// ---------------------------------------------------------------------------
// Errors.
// ---------------------------------------------------------------------------

#[derive(Debug, Clone, PartialEq, Eq)]
pub struct ParseError {
    pub diagnostics: Vec<Diagnostic>,
}

impl View for ParseError {
    type V = Seq<SpecDiagnostic>;

    open spec fn view(&self) -> Seq<SpecDiagnostic> {
        diagnostics_view(self.diagnostics@)
    }
}

/// An error diagnostic with one unlabelled span and no notes.
pub open spec fn diag_at(code: Seq<char>, message: Seq<char>, span: Span) -> SpecDiagnostic {
    SpecDiagnostic {
        severity: Severity::Error,
        code: Some(code),
        message,
        labels: seq![SpecLabel { span, message: Seq::empty() }],
        notes: Seq::empty(),
    }
}

// ---------------------------------------------------------------------------
// The grammar, over the token sequence `t`. Every parser function takes the index
// of the next token and yields either a value and the index after it, or the
// diagnostic and the index at which parsing stopped.
// ---------------------------------------------------------------------------

pub type SR<A> = Result<(A, int), (SpecDiagnostic, int)>;

pub open spec fn at_tag(t: Seq<SpecToken>, i: int, tag: u8) -> bool {
    0 <= i < t.len() && kind_tag(t[i].kind) == tag
}

/// End offset of the last token (0 when there is none).
pub open spec fn eof_pos(t: Seq<SpecToken>) -> int {
    if t.len() > 0 {
        t.last().end
    } else {
        0
    }
}

/// The span of token `i`, or the empty span at the end of input past the last token.
pub open spec fn here_span(t: Seq<SpecToken>, i: int) -> Span {
    if 0 <= i < t.len() {
        Span { file_id: 0, start: t[i].start as usize, end: t[i].end as usize }
    } else {
        Span { file_id: 0, start: eof_pos(t) as usize, end: eof_pos(t) as usize }
    }
}

pub open spec fn err_here(t: Seq<SpecToken>, i: int, message: Seq<char>) -> SpecDiagnostic {
    diag_at("E001"@, message, here_span(t, i))
}

pub open spec fn sp_identifier(t: Seq<SpecToken>, i: int) -> SR<Seq<char>> {
    if 0 <= i < t.len() {
        match t[i].kind {
            SpecTokenKind::Identifier(v) => Ok((v, i + 1)),
            _ => Err((err_here(t, i + 1, "expected identifier"@), i + 1)),
        }
    } else {
        Err((err_here(t, i, "expected identifier"@), i))
    }
}

/// The `.name` segments that may follow a name already read into `acc`.
pub open spec fn sp_path_rest(t: Seq<SpecToken>, i: int, acc: Seq<char>) -> SR<Seq<char>>
    decreases t.len() - i,
{
    if at_tag(t, i, TAG_DOT) {
        let j = i + 1;
        if j < t.len() {
            match t[j].kind {
                SpecTokenKind::Identifier(n) => sp_path_rest(t, j + 1, acc.push('.') + n),
                _ => Err((err_here(t, j + 1, "expected identifier after ."@), j + 1)),
            }
        } else {
            Err((err_here(t, j, "expected identifier after ."@), j))
        }
    } else {
        Ok((acc, i))
    }
}

pub open spec fn sp_identifier_path(t: Seq<SpecToken>, i: int) -> SR<Seq<char>> {
    match sp_identifier(t, i) {
        Ok((v, j)) => sp_path_rest(t, j, v),
        Err(e) => Err(e),
    }
}

pub open spec fn sp_alias(t: Seq<SpecToken>, i: int) -> SR<Option<Seq<char>>> {
    if at_tag(t, i, TAG_AS) {
        match sp_identifier(t, i + 1) {
            Ok((v, j)) => Ok((Some(v), j)),
            Err(e) => Err(e),
        }
    } else {
        Ok((None, i))
    }
}

pub open spec fn sp_table_ref(t: Seq<SpecToken>, i: int) -> SR<SpecTableRef> {
    match sp_identifier_path(t, i) {
        Err(e) => Err(e),
        Ok((name, j)) => match sp_alias(t, j) {
            Err(e) => Err(e),
            Ok((alias, k)) => Ok((SpecTableRef { name, alias }, k)),
        },
    }
}

pub open spec fn sp_select_item(t: Seq<SpecToken>, i: int) -> SR<SpecSelectItem> {
    if at_tag(t, i, TAG_STAR) {
        Ok((SpecSelectItem::Wildcard, i + 1))
    } else {
        match sp_identifier_path(t, i) {
            Err(e) => Err(e),
            Ok((name, j)) => match sp_alias(t, j) {
                Err(e) => Err(e),
                Ok((alias, k)) => Ok((SpecSelectItem::Column { name, alias }, k)),
            },
        }
    }
}

/// A comma-separated list of select items; `acc` holds the items already read.
pub open spec fn sp_select_items(
    t: Seq<SpecToken>,
    i: int,
    acc: Seq<SpecSelectItem>,
) -> SR<Seq<SpecSelectItem>>
    decreases t.len() - i,
{
    match sp_select_item(t, i) {
        Err(e) => Err(e),
        Ok((item, j)) => if at_tag(t, j, TAG_COMMA) {
            if i <= j {
                sp_select_items(t, j + 1, acc.push(item))
            } else {
                Err((err_here(t, i, "expected identifier"@), i))
            }
        } else {
            Ok((acc.push(item), j))
        },
    }
}

pub open spec fn sp_order_items(
    t: Seq<SpecToken>,
    i: int,
    acc: Seq<SpecOrderBy>,
) -> SR<Seq<SpecOrderBy>>
    decreases t.len() - i,
{
    match sp_identifier_path(t, i) {
        Err(e) => Err(e),
        Ok((column, j)) => {
            let (direction, k) = if at_tag(t, j, TAG_DESC) {
                (OrderDirection::Desc, j + 1)
            } else if at_tag(t, j, TAG_ASC) {
                (OrderDirection::Asc, j + 1)
            } else {
                (OrderDirection::Asc, j)
            };
            let acc2 = acc.push(SpecOrderBy { column, direction });
            if at_tag(t, k, TAG_COMMA) {
                if i <= k {
                    sp_order_items(t, k + 1, acc2)
                } else {
                    Err((err_here(t, i, "expected identifier"@), i))
                }
            } else {
                Ok((acc2, k))
            }
        },
    }
}

pub open spec fn sp_group_items(t: Seq<SpecToken>, i: int, acc: Seq<Seq<char>>) -> SR<
    Seq<Seq<char>>,
>
    decreases t.len() - i,
{
    match sp_identifier_path(t, i) {
        Err(e) => Err(e),
        Ok((column, j)) => if at_tag(t, j, TAG_COMMA) {
            if i <= j {
                sp_group_items(t, j + 1, acc.push(column))
            } else {
                Err((err_here(t, i, "expected identifier"@), i))
            }
        } else {
            Ok((acc.push(column), j))
        },
    }
}

pub open spec fn sp_limit(t: Seq<SpecToken>, i: int) -> SR<u64> {
    if 0 <= i < t.len() {
        match t[i].kind {
            SpecTokenKind::Integer(v) => Ok((v, i + 1)),
            _ => Err((err_here(t, i + 1, "expected integer after LIMIT"@), i + 1)),
        }
    } else {
        Err((err_here(t, i, "expected integer after LIMIT"@), i))
    }
}

// ---- expressions ----------------------------------------------------------

#[derive(Clone, Copy, PartialEq, Eq, Structural)]
pub enum InfixOp {
    Or,
    And,
    Eq,
    NotEq,
    Gt,
    Lt,
    Gte,
    Lte,
    Like,
    In,
    NotIn,
    Is,
    Between,
    NotBetween,
}

/// Left and right binding power of an infix operator.
pub open spec fn bp_of(op: InfixOp) -> (u8, u8) {
    match op {
        InfixOp::Or => (10, 11),
        InfixOp::And => (20, 21),
        _ => (30, 31),
    }
}

pub open spec fn binop_of(op: InfixOp) -> BinaryOperator {
    match op {
        InfixOp::Or => BinaryOperator::Or,
        InfixOp::And => BinaryOperator::And,
        InfixOp::Eq => BinaryOperator::Eq,
        InfixOp::NotEq => BinaryOperator::NotEq,
        InfixOp::Gt => BinaryOperator::Gt,
        InfixOp::Lt => BinaryOperator::Lt,
        InfixOp::Gte => BinaryOperator::Gte,
        InfixOp::Lte => BinaryOperator::Lte,
        _ => BinaryOperator::Like,
    }
}

/// The infix operator that token `i` starts, if any. `NOT` is infix only before
/// `IN` or `BETWEEN`.
pub open spec fn sp_peek_infix(t: Seq<SpecToken>, i: int) -> Option<InfixOp> {
    if 0 <= i < t.len() {
        match t[i].kind {
            SpecTokenKind::Or => Some(InfixOp::Or),
            SpecTokenKind::And => Some(InfixOp::And),
            SpecTokenKind::Eq => Some(InfixOp::Eq),
            SpecTokenKind::NotEq => Some(InfixOp::NotEq),
            SpecTokenKind::Gt => Some(InfixOp::Gt),
            SpecTokenKind::Lt => Some(InfixOp::Lt),
            SpecTokenKind::Gte => Some(InfixOp::Gte),
            SpecTokenKind::Lte => Some(InfixOp::Lte),
            SpecTokenKind::Like => Some(InfixOp::Like),
            SpecTokenKind::In => Some(InfixOp::In),
            SpecTokenKind::Is => Some(InfixOp::Is),
            SpecTokenKind::Between => Some(InfixOp::Between),
            SpecTokenKind::Not => if at_tag(t, i + 1, TAG_IN) {
                Some(InfixOp::NotIn)
            } else if at_tag(t, i + 1, TAG_BETWEEN) {
                Some(InfixOp::NotBetween)
            } else {
                None
            },
            _ => None,
        }
    } else {
        None
    }
}

/// Prefix position: a parenthesised expression, `NOT`, a (dotted) name or a literal.
pub open spec fn sp_nud(t: Seq<SpecToken>, i: int) -> SR<SpecExpr>
    decreases t.len() - i, 1int,
{
    if 0 <= i < t.len() {
        match t[i].kind {
            SpecTokenKind::LParen => match sp_bp(t, i + 1, 0) {
                Err(e) => Err(e),
                Ok((e, j)) => if at_tag(t, j, TAG_RPAREN) {
                    Ok((e, j + 1))
                } else {
                    Err((err_here(t, j, "expected )"@), j))
                },
            },
            SpecTokenKind::Not => match sp_bp(t, i + 1, PREFIX_NOT_BP) {
                Err(e) => Err(e),
                Ok((e, j)) => Ok(
                    (SpecExpr::Unary { operator: UnaryOperator::Not, expr: Box::new(e) }, j),
                ),
            },
            SpecTokenKind::Identifier(v) => match sp_path_rest(t, i + 1, v) {
                Err(e) => Err(e),
                Ok((s, j)) => Ok((SpecExpr::Identifier(s), j)),
            },
            SpecTokenKind::Integer(v) => Ok((SpecExpr::Literal(SpecLiteral::Integer(v)), i + 1)),
            SpecTokenKind::Str(s) => Ok((SpecExpr::Literal(SpecLiteral::Str(s)), i + 1)),
            SpecTokenKind::True => Ok((SpecExpr::Literal(SpecLiteral::Boolean(true)), i + 1)),
            SpecTokenKind::False => Ok((SpecExpr::Literal(SpecLiteral::Boolean(false)), i + 1)),
            SpecTokenKind::Null => Ok((SpecExpr::Literal(SpecLiteral::Null), i + 1)),
            _ => Err((err_here(t, i + 1, "expected identifier or literal"@), i + 1)),
        }
    } else {
        Err((err_here(t, i, "expected expression"@), i))
    }
}

/// An expression whose operators all bind at least as tightly as `min_bp`.
pub open spec fn sp_bp(t: Seq<SpecToken>, i: int, min_bp: u8) -> SR<SpecExpr>
    decreases t.len() - i, 2int,
{
    match sp_nud(t, i) {
        Err(e) => Err(e),
        Ok((left, j)) => if i < j <= t.len() {
            sp_loop(t, j, left, min_bp)
        } else {
            Err((err_here(t, i, "expected expression"@), i))
        },
    }
}

/// Extends `left` with infix operators for as long as they bind tightly enough.
pub open spec fn sp_loop(t: Seq<SpecToken>, i: int, left: SpecExpr, min_bp: u8) -> SR<SpecExpr>
    decreases t.len() - i, 0int,
{
    match sp_peek_infix(t, i) {
        None => Ok((left, i)),
        Some(op) => if bp_of(op).0 < min_bp {
            Ok((left, i))
        } else {
            match sp_led(t, i + 1, left, op, bp_of(op).1) {
                Err(e) => Err(e),
                Ok((e, j)) => if i < j <= t.len() {
                    sp_loop(t, j, e, min_bp)
                } else {
                    Err((err_here(t, i, "expected expression"@), i))
                },
            }
        },
    }
}

/// The right-hand side of operator `op`, whose token ends just before `i`.
pub open spec fn sp_led(
    t: Seq<SpecToken>,
    i: int,
    left: SpecExpr,
    op: InfixOp,
    right_bp: u8,
) -> SR<SpecExpr>
    decreases t.len() - i, 4int,
{
    match op {
        InfixOp::In => sp_in_list(t, i, left, false),
        InfixOp::NotIn => if at_tag(t, i, TAG_IN) {
            sp_in_list(t, i + 1, left, true)
        } else {
            Err((err_here(t, i, "expected IN after NOT"@), i))
        },
        InfixOp::Is => {
            let negated = at_tag(t, i, TAG_NOT);
            let k = if negated {
                i + 1
            } else {
                i
            };
            if at_tag(t, k, TAG_NULL) {
                Ok((SpecExpr::IsNull { expr: Box::new(left), negated }, k + 1))
            } else {
                Err((err_here(t, k, "expected NULL after IS"@), k))
            }
        },
        InfixOp::Between => sp_between(t, i, left, false),
        InfixOp::NotBetween => if at_tag(t, i, TAG_BETWEEN) {
            sp_between(t, i + 1, left, true)
        } else {
            Err((err_here(t, i, "expected BETWEEN after NOT"@), i))
        },
        _ => match sp_bp(t, i, right_bp) {
            Err(e) => Err(e),
            Ok((right, j)) => Ok(
                (
                    SpecExpr::Binary {
                        left: Box::new(left),
                        operator: binop_of(op),
                        right: Box::new(right),
                    },
                    j,
                ),
            ),
        },
    }
}

pub open spec fn sp_in_list(t: Seq<SpecToken>, i: int, left: SpecExpr, negated: bool) -> SR<
    SpecExpr,
>
    decreases t.len() - i, 3int,
{
    if at_tag(t, i, TAG_LPAREN) {
        match sp_list_items(t, i + 1, Seq::empty()) {
            Err(e) => Err(e),
            Ok((values, j)) => if at_tag(t, j, TAG_RPAREN) {
                Ok((SpecExpr::InList { expr: Box::new(left), values, negated }, j + 1))
            } else {
                Err((err_here(t, j, "expected ) after IN list"@), j))
            },
        }
    } else {
        Err((err_here(t, i, "expected ( after IN"@), i))
    }
}

pub open spec fn sp_list_items(t: Seq<SpecToken>, i: int, acc: Seq<SpecExpr>) -> SR<
    Seq<SpecExpr>,
>
    decreases t.len() - i, 3int,
{
    match sp_bp(t, i, 0) {
        Err(e) => Err(e),
        Ok((v, j)) => if at_tag(t, j, TAG_COMMA) {
            if i <= j {
                sp_list_items(t, j + 1, acc.push(v))
            } else {
                Err((err_here(t, i, "expected expression"@), i))
            }
        } else {
            Ok((acc.push(v), j))
        },
    }
}

pub open spec fn sp_between(t: Seq<SpecToken>, i: int, left: SpecExpr, negated: bool) -> SR<
    SpecExpr,
>
    decreases t.len() - i, 3int,
{
    match sp_bp(t, i, BETWEEN_BOUND_BP) {
        Err(e) => Err(e),
        Ok((low, j)) => if at_tag(t, j, TAG_AND) {
            if i <= j {
                match sp_bp(t, j + 1, BETWEEN_BOUND_BP) {
                    Err(e) => Err(e),
                    Ok((high, k)) => Ok(
                        (
                            SpecExpr::Between {
                                expr: Box::new(left),
                                low: Box::new(low),
                                high: Box::new(high),
                                negated,
                            },
                            k,
                        ),
                    ),
                }
            } else {
                Err((err_here(t, i, "expected expression"@), i))
            }
        } else {
            Err((err_here(t, j, "expected AND in BETWEEN"@), j))
        },
    }
}

// ---- clauses ----------------------------------------------------------------

pub open spec fn sp_join(t: Seq<SpecToken>, i: int) -> SR<SpecJoin> {
    match sp_table_ref(t, i) {
        Err(e) => Err(e),
        Ok((table, k)) => if at_tag(t, k, TAG_ON) {
            match sp_bp(t, k + 1, 0) {
                Err(e) => Err(e),
                Ok((on, m)) => Ok((SpecJoin { table, on }, m)),
            }
        } else {
            Err((err_here(t, k, "expected ON after JOIN table"@), k))
        },
    }
}

/// Skips tokens up to the next clause keyword (or the end).
pub open spec fn sp_recover(t: Seq<SpecToken>, i: int) -> int
    decreases t.len() - i,
{
    if 0 <= i < t.len() && !is_boundary_tag(kind_tag(t[i].kind)) {
        sp_recover(t, i + 1)
    } else {
        i
    }
}

/// A failed clause leaves `fallback` in its place, records its diagnostic and
/// resumes at the next clause keyword.
pub open spec fn or_recover<A>(t: Seq<SpecToken>, r: SR<A>, fallback: A, d: Seq<SpecDiagnostic>) -> (
    A,
    int,
    Seq<SpecDiagnostic>,
) {
    match r {
        Ok((v, j)) => (v, j, d),
        Err((e, j)) => (fallback, sp_recover(t, j), d.push(e)),
    }
}

pub open spec fn sr_some<A>(r: SR<A>) -> SR<Option<A>> {
    match r {
        Ok((v, j)) => Ok((Some(v), j)),
        Err(e) => Err(e),
    }
}

/// A required keyword; when it is missing, record `message`, skip to the next clause
/// keyword and take the keyword there if it is the one expected.
pub open spec fn sp_expect_or_recover(
    t: Seq<SpecToken>,
    i: int,
    tag: u8,
    message: Seq<char>,
    d: Seq<SpecDiagnostic>,
) -> (int, Seq<SpecDiagnostic>) {
    if at_tag(t, i, tag) {
        (i + 1, d)
    } else {
        let r = sp_recover(t, i);
        (
            if at_tag(t, r, tag) {
                r + 1
            } else {
                r
            },
            d.push(err_here(t, i, message)),
        )
    }
}

/// Zero or more `JOIN table ON condition` clauses.
pub open spec fn sp_joins(
    t: Seq<SpecToken>,
    i: int,
    acc: Seq<SpecJoin>,
    d: Seq<SpecDiagnostic>,
) -> (Seq<SpecJoin>, int, Seq<SpecDiagnostic>)
    decreases t.len() - i,
{
    if at_tag(t, i, TAG_JOIN) {
        match sp_join(t, i + 1) {
            Ok((j, k)) => if i < k <= t.len() {
                sp_joins(t, k, acc.push(j), d)
            } else {
                (acc, i, d)
            },
            Err((e, k)) => {
                let r = sp_recover(t, k);
                if i < r <= t.len() {
                    sp_joins(t, r, acc, d.push(e))
                } else {
                    (acc, i, d)
                }
            },
        }
    } else {
        (acc, i, d)
    }
}

/// The `SELECT [DISTINCT] items` head of a statement.
pub open spec fn sp_head(t: Seq<SpecToken>) -> (bool, Seq<SpecSelectItem>, int, Seq<SpecDiagnostic>) {
    let (i1, d1) = if at_tag(t, 0, TAG_SELECT) {
        (1int, Seq::<SpecDiagnostic>::empty())
    } else {
        (sp_recover(t, 0), seq![err_here(t, 0, "expected SELECT"@)])
    };
    let distinct = at_tag(t, i1, TAG_DISTINCT);
    let i2 = if distinct {
        i1 + 1
    } else {
        i1
    };
    let (select, i3, d3) = or_recover(t, sp_select_items(t, i2, Seq::empty()), Seq::empty(), d1);
    (distinct, select, i3, d3)
}

/// `FROM table [AS alias]`.
pub open spec fn sp_from_clause(t: Seq<SpecToken>, i: int, d: Seq<SpecDiagnostic>) -> (
    SpecTableRef,
    int,
    Seq<SpecDiagnostic>,
) {
    let (k, dk) = sp_expect_or_recover(t, i, TAG_FROM, "expected FROM"@, d);
    or_recover(t, sp_table_ref(t, k), SpecTableRef { name: Seq::empty(), alias: None }, dk)
}

/// An optional `WHERE` or `HAVING` clause, introduced by the keyword `tag`.
pub open spec fn sp_condition_clause(t: Seq<SpecToken>, i: int, tag: u8, d: Seq<SpecDiagnostic>) -> (
    Option<SpecExpr>,
    int,
    Seq<SpecDiagnostic>,
) {
    if at_tag(t, i, tag) {
        or_recover(t, sr_some(sp_bp(t, i + 1, 0)), None, d)
    } else {
        (None, i, d)
    }
}

pub open spec fn sp_group_clause(t: Seq<SpecToken>, i: int, d: Seq<SpecDiagnostic>) -> (
    Seq<Seq<char>>,
    int,
    Seq<SpecDiagnostic>,
) {
    if at_tag(t, i, TAG_GROUP) {
        let (k, dk) = sp_expect_or_recover(t, i + 1, TAG_BY, "expected BY after GROUP"@, d);
        or_recover(t, sp_group_items(t, k, Seq::empty()), Seq::empty(), dk)
    } else {
        (Seq::empty(), i, d)
    }
}

pub open spec fn sp_order_clause(t: Seq<SpecToken>, i: int, d: Seq<SpecDiagnostic>) -> (
    Seq<SpecOrderBy>,
    int,
    Seq<SpecDiagnostic>,
) {
    if at_tag(t, i, TAG_ORDER) {
        let (k, dk) = sp_expect_or_recover(t, i + 1, TAG_BY, "expected BY after ORDER"@, d);
        or_recover(t, sp_order_items(t, k, Seq::empty()), Seq::empty(), dk)
    } else {
        (Seq::empty(), i, d)
    }
}

pub open spec fn sp_limit_clause(t: Seq<SpecToken>, i: int, d: Seq<SpecDiagnostic>) -> (
    Option<u64>,
    int,
    Seq<SpecDiagnostic>,
) {
    if at_tag(t, i, TAG_LIMIT) {
        or_recover(t, sr_some(sp_limit(t, i + 1)), None, d)
    } else {
        (None, i, d)
    }
}

/// An optional `;`, after which nothing may follow.
pub open spec fn sp_tail(t: Seq<SpecToken>, i: int, d: Seq<SpecDiagnostic>) -> Seq<SpecDiagnostic> {
    let k = if at_tag(t, i, TAG_SEMICOLON) {
        i + 1
    } else {
        i
    };
    if k < t.len() {
        d.push(err_here(t, k, "unexpected trailing tokens"@))
    } else {
        d
    }
}

/// A whole `SELECT` statement. Errors in one clause do not stop the parse: every
/// diagnostic found is reported, and a statement is returned only when there is none.
pub open spec fn sp_select(t: Seq<SpecToken>) -> Result<SpecSelect, Seq<SpecDiagnostic>> {
    let (distinct, select, i3, d3) = sp_head(t);
    let (from, i5, d5) = sp_from_clause(t, i3, d3);
    let (joins, i6, d6) = sp_joins(t, i5, Seq::empty(), d5);
    let (where_clause, i7, d7) = sp_condition_clause(t, i6, TAG_WHERE, d6);
    let (group_by, i8, d8) = sp_group_clause(t, i7, d7);
    let (having, i9, d9) = sp_condition_clause(t, i8, TAG_HAVING, d8);
    let (order_by, i10, d10) = sp_order_clause(t, i9, d9);
    let (limit, i11, d11) = sp_limit_clause(t, i10, d10);
    let d12 = sp_tail(t, i11, d11);
    if d12.len() == 0 {
        Ok(
            SpecSelect {
                select,
                distinct,
                from,
                joins,
                where_clause,
                group_by,
                having,
                order_by,
                limit,
            },
        )
    } else {
        Err(d12)
    }
}

/// What `parse_query` yields for a query given as UTF-8 bytes: the statement, or every
/// diagnostic (a single `E000` at the offending offset when the text does not lex).
pub open spec fn spec_parse_query(s: Seq<u8>) -> Result<SpecSelect, Seq<SpecDiagnostic>> {
    match spec_lex(s) {
        Err(p) => Err(
            seq![diag_at("E000"@, "invalid token"@, Span { file_id: 0, start: p as usize, end: p as usize })],
        ),
        Ok(t) => sp_select(t),
    }
}

/// A refused query is always answered with at least one diagnostic; one that does not
/// lex is answered with exactly one, `E000`, at an offset inside the query.
pub proof fn lemma_refusal_has_diagnostics(s: Seq<u8>)
    ensures
        spec_parse_query(s) matches Err(ds) ==> ds.len() > 0,
        spec_lex(s) matches Err(p) ==> spec_parse_query(s) matches Err(ds) && ds.len() == 1
            && ds[0].code == Some("E000"@) && ds[0].labels.len() == 1 && 0 <= ds[0].labels[0].span.start
            < s.len(),
{
    lemma_lex_spans(s);
}

// ---------------------------------------------------------------------------
// Progress: every parser function that succeeds consumes at least one token (the
// optional parts consume none), and no index ever runs past the input.
// ---------------------------------------------------------------------------

pub open spec fn sr_within<A>(r: SR<A>, i: int, n: int, strict: bool) -> bool {
    match r {
        Ok((_, j)) => (if strict {
            i < j
        } else {
            i <= j
        }) && j <= n,
        Err((_, j)) => i <= j <= n,
    }
}

proof fn lemma_identifier(t: Seq<SpecToken>, i: int)
    requires
        0 <= i <= t.len(),
    ensures
        sr_within(sp_identifier(t, i), i, t.len() as int, true),
{
}

proof fn lemma_path_rest(t: Seq<SpecToken>, i: int, acc: Seq<char>)
    requires
        0 <= i <= t.len(),
    ensures
        sr_within(sp_path_rest(t, i, acc), i, t.len() as int, false),
    decreases t.len() - i,
{
    if at_tag(t, i, TAG_DOT) && i + 1 < t.len() {
        if let SpecTokenKind::Identifier(n) = t[i + 1].kind {
            lemma_path_rest(t, i + 2, acc.push('.') + n);
        }
    }
}

proof fn lemma_identifier_path(t: Seq<SpecToken>, i: int)
    requires
        0 <= i <= t.len(),
    ensures
        sr_within(sp_identifier_path(t, i), i, t.len() as int, true),
{
    if let Ok((v, j)) = sp_identifier(t, i) {
        lemma_path_rest(t, j, v);
    }
}

proof fn lemma_table_ref(t: Seq<SpecToken>, i: int)
    requires
        0 <= i <= t.len(),
    ensures
        sr_within(sp_table_ref(t, i), i, t.len() as int, true),
        sr_within(sp_select_item(t, i), i, t.len() as int, true),
{
    lemma_identifier_path(t, i);
    if let Ok((_, j)) = sp_identifier_path(t, i) {
        if at_tag(t, j, TAG_AS) {
            lemma_identifier(t, j + 1);
        }
    }
}

proof fn lemma_select_items(t: Seq<SpecToken>, i: int, acc: Seq<SpecSelectItem>)
    requires
        0 <= i <= t.len(),
    ensures
        sr_within(sp_select_items(t, i, acc), i, t.len() as int, true),
    decreases t.len() - i,
{
    lemma_table_ref(t, i);
    if let Ok((item, j)) = sp_select_item(t, i) {
        if at_tag(t, j, TAG_COMMA) {
            lemma_select_items(t, j + 1, acc.push(item));
        }
    }
}

proof fn lemma_order_items(t: Seq<SpecToken>, i: int, acc: Seq<SpecOrderBy>)
    requires
        0 <= i <= t.len(),
    ensures
        sr_within(sp_order_items(t, i, acc), i, t.len() as int, true),
    decreases t.len() - i,
{
    lemma_identifier_path(t, i);
    if let Ok((column, j)) = sp_identifier_path(t, i) {
        let (direction, k) = if at_tag(t, j, TAG_DESC) {
            (OrderDirection::Desc, j + 1)
        } else if at_tag(t, j, TAG_ASC) {
            (OrderDirection::Asc, j + 1)
        } else {
            (OrderDirection::Asc, j)
        };
        if at_tag(t, k, TAG_COMMA) {
            lemma_order_items(t, k + 1, acc.push(SpecOrderBy { column, direction }));
        }
    }
}

/// The direction an `ORDER BY` key written before token `q` has: descending only when
/// `q` is `DESC`, ascending when it is `ASC` or anything else.
pub open spec fn written_direction(t: Seq<SpecToken>, q: int) -> OrderDirection {
    if 0 <= q < t.len() && t[q].kind is Desc {
        OrderDirection::Desc
    } else {
        OrderDirection::Asc
    }
}

/// `key` is the column path read at token `p` with the direction written after it.
pub open spec fn key_read_at(t: Seq<SpecToken>, p: int, key: SpecOrderBy) -> bool {
    match sp_identifier_path(t, p) {
        Ok((column, q)) => column == key.column && key.direction == written_direction(t, q),
        Err(_) => false,
    }
}

/// `key` was read at some token from `i` on.
pub open spec fn key_read_from(t: Seq<SpecToken>, i: int, key: SpecOrderBy) -> bool {
    exists|p: int| i <= p && #[trigger] key_read_at(t, p, key)
}

/// Each key of `keys` from position `lo` on was read at some token from `i` on.
pub open spec fn keys_read_from(t: Seq<SpecToken>, i: int, keys: Seq<SpecOrderBy>, lo: int) -> bool {
    forall|n: int| #![trigger keys[n]] lo <= n < keys.len() ==> key_read_from(t, i, keys[n])
}

/// Every `ORDER BY` key read is a column path of the query, and it is descending exactly
/// when `DESC` follows the path; a key followed by `ASC` or by no direction at all is
/// ascending. The keys read before are kept, in order.
pub proof fn lemma_order_keys(t: Seq<SpecToken>, i: int, acc: Seq<SpecOrderBy>)
    requires
        0 <= i,
    ensures
        sp_order_items(t, i, acc) matches Ok((items, k)) ==> {
            &&& items.len() > acc.len()
            &&& items.subrange(0, acc.len() as int) == acc
            &&& keys_read_from(t, i, items, acc.len() as int)
        },
    decreases t.len() - i,
{
    if let Ok((column, j)) = sp_identifier_path(t, i) {
        let (direction, k) = if at_tag(t, j, TAG_DESC) {
            (OrderDirection::Desc, j + 1)
        } else if at_tag(t, j, TAG_ASC) {
            (OrderDirection::Asc, j + 1)
        } else {
            (OrderDirection::Asc, j)
        };
        assert(direction == written_direction(t, j));
        let acc2 = acc.push(SpecOrderBy { column, direction });
        if at_tag(t, k, TAG_COMMA) && i <= k {
            lemma_order_keys(t, k + 1, acc2);
            assert(sp_order_items(t, i, acc) == sp_order_items(t, k + 1, acc2));
            match sp_order_items(t, k + 1, acc2) {
                Ok((items, k2)) => {
                    assert(items.subrange(0, acc2.len() as int) == acc2);
                    assert(items.subrange(0, acc.len() as int) =~= acc) by {
                        assert forall|m: int| 0 <= m < acc.len() implies items[m] == acc[m] by {
                            assert(items.subrange(0, acc2.len() as int)[m] == acc2[m]);
                        }
                    }
                    assert forall|n: int|
                        #![trigger items[n]]
                        acc.len() <= n < items.len() implies key_read_from(t, i, items[n]) by {
                        if n == acc.len() {
                            assert(items[n] == items.subrange(0, acc2.len() as int)[n]);
                            assert(items[n] == acc2[n]);
                            assert(key_read_at(t, i, items[n]));
                        } else {
                            let w = items[n];
                            assert(key_read_from(t, k + 1, w));
                            let p = choose|p: int| k + 1 <= p && #[trigger] key_read_at(t, p, w);
                            assert(i <= p && key_read_at(t, p, items[n]));
                        }
                    }
                    assert(keys_read_from(t, i, items, acc.len() as int));
                },
                Err(_) => {},
            }
        } else {
            if let Ok((items, k2)) = sp_order_items(t, i, acc) {
                assert(items == acc2);
                assert(items.subrange(0, acc.len() as int) =~= acc);
                assert forall|n: int| #![trigger items[n]] acc.len() <= n < items.len() implies key_read_from(t, i, items[n]) by {
                    assert(n == acc.len());
                    assert(items[n] == SpecOrderBy { column, direction });
                    assert(key_read_at(t, i, items[n]));
                }
                assert(keys_read_from(t, i, items, acc.len() as int));
            }
        }
    }
}

proof fn lemma_keys_read_from_start(t: Seq<SpecToken>, i: int, keys: Seq<SpecOrderBy>)
    requires
        keys_read_from(t, i, keys, 0),
    ensures
        keys_read_from(t, 0, keys, 0),
{
    assert forall|n: int| #![trigger keys[n]] 0 <= n < keys.len() implies key_read_from(t, 0, keys[n]) by {
        assert(key_read_from(t, i, keys[n]));
        let p = choose|p: int| i <= p && #[trigger] key_read_at(t, p, keys[n]);
        assert(0 <= p);
        assert(key_read_at(t, p, keys[n]));
    }
}

proof fn lemma_order_clause_keys(t: Seq<SpecToken>, i: int, d: Seq<SpecDiagnostic>)
    ensures
        keys_read_from(t, 0, sp_order_clause(t, i, d).0, 0),
{
    if at_tag(t, i, TAG_ORDER) {
        let (k, dk) = sp_expect_or_recover(t, i + 1, TAG_BY, "expected BY after ORDER"@, d);
        if let Ok((items, j)) = sp_order_items(t, k, Seq::empty()) {
            lemma_order_keys(t, k, Seq::empty());
            lemma_keys_read_from_start(t, k, items);
        }
    }
}

/// In a parsed statement, every `ORDER BY` key is a column path written in the query,
/// descending exactly when `DESC` follows it: a key with `ASC` or with no direction is
/// ascending.
pub proof fn lemma_statement_order_keys(t: Seq<SpecToken>)
    ensures
        sp_select(t) matches Ok(s) ==> keys_read_from(t, 0, s.order_by, 0),
{
    let (distinct, select, i3, d3) = sp_head(t);
    let (from, i5, d5) = sp_from_clause(t, i3, d3);
    let (joins, i6, d6) = sp_joins(t, i5, Seq::empty(), d5);
    let (where_clause, i7, d7) = sp_condition_clause(t, i6, TAG_WHERE, d6);
    let (group_by, i8, d8) = sp_group_clause(t, i7, d7);
    let (having, i9, d9) = sp_condition_clause(t, i8, TAG_HAVING, d8);
    lemma_order_clause_keys(t, i9, d9);
}

proof fn lemma_group_items(t: Seq<SpecToken>, i: int, acc: Seq<Seq<char>>)
    requires
        0 <= i <= t.len(),
    ensures
        sr_within(sp_group_items(t, i, acc), i, t.len() as int, true),
    decreases t.len() - i,
{
    lemma_identifier_path(t, i);
    if let Ok((column, j)) = sp_identifier_path(t, i) {
        if at_tag(t, j, TAG_COMMA) {
            lemma_group_items(t, j + 1, acc.push(column));
        }
    }
}

proof fn lemma_nud(t: Seq<SpecToken>, i: int)
    requires
        0 <= i <= t.len(),
    ensures
        sr_within(sp_nud(t, i), i, t.len() as int, true),
    decreases t.len() - i, 1int,
{
    if i < t.len() {
        match t[i].kind {
            SpecTokenKind::LParen => {
                lemma_bp(t, i + 1, 0);
            },
            SpecTokenKind::Not => {
                lemma_bp(t, i + 1, PREFIX_NOT_BP);
            },
            SpecTokenKind::Identifier(v) => {
                lemma_path_rest(t, i + 1, v);
            },
            _ => {},
        }
    }
}

proof fn lemma_bp(t: Seq<SpecToken>, i: int, min_bp: u8)
    requires
        0 <= i <= t.len(),
    ensures
        sr_within(sp_bp(t, i, min_bp), i, t.len() as int, true),
    decreases t.len() - i, 2int,
{
    lemma_nud(t, i);
    if let Ok((left, j)) = sp_nud(t, i) {
        lemma_loop(t, j, left, min_bp);
    }
}

proof fn lemma_loop(t: Seq<SpecToken>, i: int, left: SpecExpr, min_bp: u8)
    requires
        0 <= i <= t.len(),
    ensures
        sr_within(sp_loop(t, i, left, min_bp), i, t.len() as int, false),
    decreases t.len() - i, 0int,
{
    if let Some(op) = sp_peek_infix(t, i) {
        if bp_of(op).0 >= min_bp {
            lemma_led(t, i + 1, left, op, bp_of(op).1);
            if let Ok((e, j)) = sp_led(t, i + 1, left, op, bp_of(op).1) {
                lemma_loop(t, j, e, min_bp);
            }
        }
    }
}

proof fn lemma_led(t: Seq<SpecToken>, i: int, left: SpecExpr, op: InfixOp, right_bp: u8)
    requires
        0 <= i <= t.len(),
    ensures
        sr_within(sp_led(t, i, left, op, right_bp), i, t.len() as int, true),
    decreases t.len() - i, 4int,
{
    match op {
        InfixOp::In => {
            lemma_in_list(t, i, left, false);
        },
        InfixOp::NotIn => {
            if at_tag(t, i, TAG_IN) {
                lemma_in_list(t, i + 1, left, true);
            }
        },
        InfixOp::Is => {},
        InfixOp::Between => {
            lemma_between(t, i, left, false);
        },
        InfixOp::NotBetween => {
            if at_tag(t, i, TAG_BETWEEN) {
                lemma_between(t, i + 1, left, true);
            }
        },
        _ => {
            lemma_bp(t, i, right_bp);
        },
    }
}

proof fn lemma_in_list(t: Seq<SpecToken>, i: int, left: SpecExpr, negated: bool)
    requires
        0 <= i <= t.len(),
    ensures
        sr_within(sp_in_list(t, i, left, negated), i, t.len() as int, true),
    decreases t.len() - i, 3int,
{
    if at_tag(t, i, TAG_LPAREN) {
        lemma_list_items(t, i + 1, Seq::empty());
    }
}

proof fn lemma_list_items(t: Seq<SpecToken>, i: int, acc: Seq<SpecExpr>)
    requires
        0 <= i <= t.len(),
    ensures
        sr_within(sp_list_items(t, i, acc), i, t.len() as int, true),
    decreases t.len() - i, 3int,
{
    lemma_bp(t, i, 0);
    if let Ok((v, j)) = sp_bp(t, i, 0) {
        if at_tag(t, j, TAG_COMMA) {
            lemma_list_items(t, j + 1, acc.push(v));
        }
    }
}

proof fn lemma_between(t: Seq<SpecToken>, i: int, left: SpecExpr, negated: bool)
    requires
        0 <= i <= t.len(),
    ensures
        sr_within(sp_between(t, i, left, negated), i, t.len() as int, true),
    decreases t.len() - i, 3int,
{
    lemma_bp(t, i, BETWEEN_BOUND_BP);
    if let Ok((low, j)) = sp_bp(t, i, BETWEEN_BOUND_BP) {
        if at_tag(t, j, TAG_AND) {
            lemma_bp(t, j + 1, BETWEEN_BOUND_BP);
        }
    }
}

proof fn lemma_recover(t: Seq<SpecToken>, i: int)
    requires
        0 <= i <= t.len(),
    ensures
        i <= sp_recover(t, i) <= t.len(),
    decreases t.len() - i,
{
    if i < t.len() && !is_boundary_tag(kind_tag(t[i].kind)) {
        lemma_recover(t, i + 1);
    }
}

proof fn lemma_join(t: Seq<SpecToken>, i: int)
    requires
        0 <= i <= t.len(),
    ensures
        sr_within(sp_join(t, i), i, t.len() as int, true),
{
    lemma_table_ref(t, i);
    if let Ok((_, k)) = sp_table_ref(t, i) {
        if at_tag(t, k, TAG_ON) {
            lemma_bp(t, k + 1, 0);
        }
    }
}

// ---------------------------------------------------------------------------
// The executable parser.
// ---------------------------------------------------------------------------

fn clone_kind(k: &TokenKind) -> (r: TokenKind)
    ensures
        r@ == k@,
{
    match k {
        TokenKind::Identifier(s) => TokenKind::Identifier(s.clone()),
        TokenKind::String(s) => TokenKind::String(s.clone()),
        TokenKind::Integer(v) => TokenKind::Integer(*v),
        TokenKind::Select => TokenKind::Select,
        TokenKind::Distinct => TokenKind::Distinct,
        TokenKind::From => TokenKind::From,
        TokenKind::Group => TokenKind::Group,
        TokenKind::Is => TokenKind::Is,
        TokenKind::Join => TokenKind::Join,
        TokenKind::On => TokenKind::On,
        TokenKind::Where => TokenKind::Where,
        TokenKind::Having => TokenKind::Having,
        TokenKind::Order => TokenKind::Order,
        TokenKind::By => TokenKind::By,
        TokenKind::Limit => TokenKind::Limit,
        TokenKind::Asc => TokenKind::Asc,
        TokenKind::Desc => TokenKind::Desc,
        TokenKind::As => TokenKind::As,
        TokenKind::And => TokenKind::And,
        TokenKind::Or => TokenKind::Or,
        TokenKind::Not => TokenKind::Not,
        TokenKind::In => TokenKind::In,
        TokenKind::Null => TokenKind::Null,
        TokenKind::True => TokenKind::True,
        TokenKind::False => TokenKind::False,
        TokenKind::Like => TokenKind::Like,
        TokenKind::Between => TokenKind::Between,
        TokenKind::Comma => TokenKind::Comma,
        TokenKind::Dot => TokenKind::Dot,
        TokenKind::LParen => TokenKind::LParen,
        TokenKind::RParen => TokenKind::RParen,
        TokenKind::Semicolon => TokenKind::Semicolon,
        TokenKind::Star => TokenKind::Star,
        TokenKind::Eq => TokenKind::Eq,
        TokenKind::NotEq => TokenKind::NotEq,
        TokenKind::Gt => TokenKind::Gt,
        TokenKind::Lt => TokenKind::Lt,
        TokenKind::Gte => TokenKind::Gte,
        TokenKind::Lte => TokenKind::Lte,
    }
}

impl InfixOp {
    fn binding_power(self) -> (r: (u8, u8))
        ensures
            r == bp_of(self),
    {
        match self {
            InfixOp::Or => (10, 11),
            InfixOp::And => (20, 21),
            InfixOp::Eq | InfixOp::NotEq | InfixOp::Gt | InfixOp::Lt | InfixOp::Gte
            | InfixOp::Lte | InfixOp::Like | InfixOp::In | InfixOp::NotIn | InfixOp::Is
            | InfixOp::Between | InfixOp::NotBetween => (30, 31),
        }
    }
}

fn binary_operator(op: InfixOp) -> (r: BinaryOperator)
    ensures
        r == binop_of(op),
{
    match op {
        InfixOp::Or => BinaryOperator::Or,
        InfixOp::And => BinaryOperator::And,
        InfixOp::Eq => BinaryOperator::Eq,
        InfixOp::NotEq => BinaryOperator::NotEq,
        InfixOp::Gt => BinaryOperator::Gt,
        InfixOp::Lt => BinaryOperator::Lt,
        InfixOp::Gte => BinaryOperator::Gte,
        InfixOp::Lte => BinaryOperator::Lte,
        _ => BinaryOperator::Like,
    }
}

fn is_boundary(tag: u8) -> (r: bool)
    ensures
        r == is_boundary_tag(tag),
{
    tag == TAG_FROM || tag == TAG_GROUP || tag == TAG_JOIN || tag == TAG_WHERE || tag
        == TAG_HAVING || tag == TAG_ORDER || tag == TAG_LIMIT || tag == TAG_SEMICOLON
}

struct QueryParser {
    tokens: Vec<Token>,
    index: usize,
    eof: usize,
    diagnostics: Vec<Diagnostic>,
}

/// The parser's tokens, end offset and recorded diagnostics are the same in both states.
spec fn same_input(a: QueryParser, b: QueryParser) -> bool {
    a.tokens@ == b.tokens@ && a.eof == b.eof && a.diagnostics@ == b.diagnostics@
}

/// `r` is the executable form of the grammar's answer `s`, the parser having stopped
/// at `idx`; an error carries exactly the one diagnostic of `s`.
spec fn res_is<T, A>(r: Result<T, ParseError>, idx: usize, s: SR<A>, f: spec_fn(T) -> A) -> bool {
    match r {
        Ok(v) => s == Ok::<(A, int), (SpecDiagnostic, int)>((f(v), idx as int)),
        Err(e) => e@.len() == 1 && s == Err::<(A, int), (SpecDiagnostic, int)>(
            (e@[0], idx as int),
        ),
    }
}

impl QueryParser {
    spec fn toks(&self) -> Seq<SpecToken> {
        tokens_view(self.tokens@)
    }

    spec fn wf(&self) -> bool {
        self.index <= self.tokens@.len() && self.tokens@.len() <= usize::MAX && self.eof as int
            == eof_pos(self.toks())
    }

    fn new(tokens: Vec<Token>) -> (p: QueryParser)
        ensures
            p.wf(),
            p.index == 0,
            p.tokens@ == tokens@,
            p.diagnostics@.len() == 0,
    {
        let n = tokens.len();
        let eof = if n > 0 {
            tokens[n - 1].end
        } else {
            0
        };
        QueryParser { tokens, index: 0, eof, diagnostics: Vec::new() }
    }

    /// Whether the next token has the given tag (without consuming it).
    fn check(&self, tag: u8) -> (r: bool)
        requires
            self.wf(),
        ensures
            r == at_tag(self.toks(), self.index as int, tag),
    {
        self.index < self.tokens.len() && tag_of(&self.tokens[self.index].kind) == tag
    }

    fn peek_next_matches_kind(&self, tag: u8) -> (r: bool)
        requires
            self.wf(),
        ensures
            r == at_tag(self.toks(), self.index + 1, tag),
    {
        self.index < self.tokens.len() && self.index + 1 < self.tokens.len() && tag_of(
            &self.tokens[self.index + 1].kind,
        ) == tag
    }

    fn matches_kind(&mut self, tag: u8) -> (r: bool)
        requires
            old(self).wf(),
        ensures
            final(self).wf(),
            same_input(*old(self), *final(self)),
            r == at_tag(old(self).toks(), old(self).index as int, tag),
            final(self).index == if r {
                old(self).index + 1
            } else {
                old(self).index as int
            },
    {
        if self.check(tag) {
            self.index = self.index + 1;
            true
        } else {
            false
        }
    }

    fn is_done(&self) -> (r: bool)
        ensures
            r == (self.index >= self.tokens@.len()),
    {
        self.index >= self.tokens.len()
    }

    fn error_here(&self, message: &str) -> (e: ParseError)
        requires
            self.wf(),
        ensures
            e@ == seq![err_here(self.toks(), self.index as int, message@)],
    {
        let span = if self.index < self.tokens.len() {
            Span::new(0, self.tokens[self.index].start, self.tokens[self.index].end)
        } else {
            Span::point(0, self.eof)
        };
        ParseError::at(message, span)
    }

    fn expect_kind(&mut self, tag: u8, message: &str) -> (r: Result<(), ParseError>)
        requires
            old(self).wf(),
        ensures
            final(self).wf(),
            same_input(*old(self), *final(self)),
            r is Ok == at_tag(old(self).toks(), old(self).index as int, tag),
            r is Ok ==> final(self).index == old(self).index + 1,
            r matches Err(e) ==> e@ == seq![
                err_here(old(self).toks(), old(self).index as int, message@),
            ] && final(self).index == old(self).index,
    {
        if self.matches_kind(tag) {
            Ok(())
        } else {
            Err(self.error_here(message))
        }
    }

    fn record_error(&mut self, error: ParseError)
        ensures
            final(self).tokens@ == old(self).tokens@,
            final(self).index == old(self).index,
            final(self).eof == old(self).eof,
            diagnostics_view(final(self).diagnostics@) == diagnostics_view(
                old(self).diagnostics@,
            ) + error@,
    {
        let mut incoming = error.diagnostics;
        self.diagnostics.append(&mut incoming);
        assert(diagnostics_view(self.diagnostics@) =~= diagnostics_view(old(self).diagnostics@)
            + error@);
    }

    fn recover_to_clause_boundary(&mut self)
        requires
            old(self).wf(),
        ensures
            final(self).wf(),
            same_input(*old(self), *final(self)),
            final(self).index == sp_recover(old(self).toks(), old(self).index as int),
    {
        while self.index < self.tokens.len() && !is_boundary(tag_of(&self.tokens[self.index].kind))
            invariant
                self.wf(),
                same_input(*old(self), *self),
                sp_recover(old(self).toks(), old(self).index as int) == sp_recover(
                    self.toks(),
                    self.index as int,
                ),
            decreases self.tokens@.len() - self.index,
        {
            self.index = self.index + 1;
        }
    }

    /// Records a clause's error and resumes at the next clause keyword.
    fn absorb(&mut self, error: ParseError)
        requires
            old(self).wf(),
        ensures
            final(self).wf(),
            final(self).tokens@ == old(self).tokens@,
            final(self).eof == old(self).eof,
            final(self).index == sp_recover(old(self).toks(), old(self).index as int),
            diagnostics_view(final(self).diagnostics@) == diagnostics_view(
                old(self).diagnostics@,
            ) + error@,
    {
        self.record_error(error);
        self.recover_to_clause_boundary();
    }

    fn parse_identifier(&mut self) -> (r: Result<String, ParseError>)
        requires
            old(self).wf(),
        ensures
            final(self).wf(),
            same_input(*old(self), *final(self)),
            res_is(
                r,
                final(self).index,
                sp_identifier(old(self).toks(), old(self).index as int),
                |s: String| s@,
            ),
    {
        if self.index < self.tokens.len() {
            let i = self.index;
            self.index = i + 1;
            match &self.tokens[i].kind {
                TokenKind::Identifier(value) => Ok(value.clone()),
                _ => Err(self.error_here("expected identifier")),
            }
        } else {
            Err(self.error_here("expected identifier"))
        }
    }

    /// Reads the `.name` segments that may follow the name `value`.
    #[verifier::loop_isolation(false)]
    fn parse_path_rest(&mut self, value: String) -> (r: Result<String, ParseError>)
        requires
            old(self).wf(),
        ensures
            final(self).wf(),
            same_input(*old(self), *final(self)),
            res_is(
                r,
                final(self).index,
                sp_path_rest(old(self).toks(), old(self).index as int, value@),
                |s: String| s@,
            ),
    {
        let ghost t = self.toks();
        let ghost i0 = self.index as int;
        let ghost v0 = value@;
        let mut value = value;
        while self.check(TAG_DOT)
            invariant
                self.wf(),
                same_input(*old(self), *self),
                t == self.toks(),
                t == old(self).toks(),
                i0 == old(self).index as int,
                sp_path_rest(t, i0, v0) == sp_path_rest(t, self.index as int, value@),
            decreases self.tokens@.len() - self.index,
        {
            self.index = self.index + 1;
            push_char(&mut value, '.');
            if self.index < self.tokens.len() {
                let i = self.index;
                self.index = i + 1;
                match &self.tokens[i].kind {
                    TokenKind::Identifier(next) => {
                        value.append(next.as_str());
                    },
                    _ => {
                        return Err(self.error_here("expected identifier after ."));
                    },
                }
            } else {
                return Err(self.error_here("expected identifier after ."));
            }
        }
        Ok(value)
    }

    fn parse_identifier_path(&mut self) -> (r: Result<String, ParseError>)
        requires
            old(self).wf(),
        ensures
            final(self).wf(),
            same_input(*old(self), *final(self)),
            res_is(
                r,
                final(self).index,
                sp_identifier_path(old(self).toks(), old(self).index as int),
                |s: String| s@,
            ),
    {
        let value = self.parse_identifier()?;
        self.parse_path_rest(value)
    }

    fn parse_alias(&mut self) -> (r: Result<Option<String>, ParseError>)
        requires
            old(self).wf(),
        ensures
            final(self).wf(),
            same_input(*old(self), *final(self)),
            res_is(
                r,
                final(self).index,
                sp_alias(old(self).toks(), old(self).index as int),
                |s: Option<String>| opt_str_view(s),
            ),
    {
        if !self.matches_kind(TAG_AS) {
            return Ok(None);
        }
        Ok(Some(self.parse_identifier()?))
    }

    fn parse_table_ref(&mut self) -> (r: Result<TableRef, ParseError>)
        requires
            old(self).wf(),
        ensures
            final(self).wf(),
            same_input(*old(self), *final(self)),
            res_is(
                r,
                final(self).index,
                sp_table_ref(old(self).toks(), old(self).index as int),
                |x: TableRef| table_ref_view(x),
            ),
    {
        let name = self.parse_identifier_path()?;
        let alias = self.parse_alias()?;
        Ok(TableRef { name, alias })
    }

    fn parse_select_item(&mut self) -> (r: Result<SelectItem, ParseError>)
        requires
            old(self).wf(),
        ensures
            final(self).wf(),
            same_input(*old(self), *final(self)),
            res_is(
                r,
                final(self).index,
                sp_select_item(old(self).toks(), old(self).index as int),
                |x: SelectItem| select_item_view(x),
            ),
    {
        if self.matches_kind(TAG_STAR) {
            return Ok(SelectItem::Wildcard);
        }
        let name = self.parse_identifier_path()?;
        let alias = self.parse_alias()?;
        Ok(SelectItem::Column { name, alias })
    }

    fn parse_select_list(&mut self) -> (r: Result<Vec<SelectItem>, ParseError>)
        requires
            old(self).wf(),
        ensures
            final(self).wf(),
            same_input(*old(self), *final(self)),
            res_is(
                r,
                final(self).index,
                sp_select_items(old(self).toks(), old(self).index as int, Seq::empty()),
                |x: Vec<SelectItem>| select_items_view(x@),
            ),
    {
        let ghost t = self.toks();
        let ghost i0 = self.index as int;
        let mut items: Vec<SelectItem> = Vec::new();
        assert(select_items_view(items@) =~= Seq::<SpecSelectItem>::empty());
        loop
            invariant
                self.wf(),
                same_input(*old(self), *self),
                t == self.toks(),
                t == old(self).toks(),
                i0 == old(self).index as int,
                sp_select_items(t, i0, Seq::empty()) == sp_select_items(
                    t,
                    self.index as int,
                    select_items_view(items@),
                ),
            decreases self.tokens@.len() - self.index,
        {
            let ghost acc = select_items_view(items@);
            let ghost i = self.index as int;
            proof {
                lemma_table_ref(t, i);
            }
            let item = self.parse_select_item()?;
            items.push(item);
            assert(select_items_view(items@) =~= acc.push(select_item_view(item)));
            if !self.matches_kind(TAG_COMMA) {
                return Ok(items);
            }
        }
    }

    fn parse_order_by(&mut self) -> (r: Result<Vec<OrderBy>, ParseError>)
        requires
            old(self).wf(),
        ensures
            final(self).wf(),
            same_input(*old(self), *final(self)),
            res_is(
                r,
                final(self).index,
                sp_order_items(old(self).toks(), old(self).index as int, Seq::empty()),
                |x: Vec<OrderBy>| order_bys_view(x@),
            ),
            r matches Ok(v) ==> v@.len() > 0 && keys_read_from(
                old(self).toks(),
                old(self).index as int,
                order_bys_view(v@),
                0,
            ),
    {
        let ghost t = self.toks();
        let ghost i0 = self.index as int;
        let mut clauses: Vec<OrderBy> = Vec::new();
        assert(order_bys_view(clauses@) =~= Seq::<SpecOrderBy>::empty());
        loop
            invariant
                self.wf(),
                same_input(*old(self), *self),
                t == self.toks(),
                t == old(self).toks(),
                i0 == old(self).index as int,
                sp_order_items(t, i0, Seq::empty()) == sp_order_items(
                    t,
                    self.index as int,
                    order_bys_view(clauses@),
                ),
            decreases self.tokens@.len() - self.index,
        {
            let ghost acc = order_bys_view(clauses@);
            let ghost i = self.index as int;
            proof {
                lemma_identifier_path(t, i);
            }
            let column = self.parse_identifier_path()?;
            let direction = if self.matches_kind(TAG_DESC) {
                OrderDirection::Desc
            } else {
                self.matches_kind(TAG_ASC);
                OrderDirection::Asc
            };
            let clause = OrderBy { column, direction };
            clauses.push(clause);
            assert(order_bys_view(clauses@) =~= acc.push(order_by_view(clause)));
            if !self.matches_kind(TAG_COMMA) {
                proof {
                    lemma_order_keys(t, i0, Seq::empty());
                }
                assert(order_bys_view(clauses@).len() == clauses@.len());
                return Ok(clauses);
            }
        }
    }

    fn parse_group_by(&mut self) -> (r: Result<Vec<String>, ParseError>)
        requires
            old(self).wf(),
        ensures
            final(self).wf(),
            same_input(*old(self), *final(self)),
            res_is(
                r,
                final(self).index,
                sp_group_items(old(self).toks(), old(self).index as int, Seq::empty()),
                |x: Vec<String>| strings_view(x@),
            ),
    {
        let ghost t = self.toks();
        let ghost i0 = self.index as int;
        let mut columns: Vec<String> = Vec::new();
        assert(strings_view(columns@) =~= Seq::<Seq<char>>::empty());
        loop
            invariant
                self.wf(),
                same_input(*old(self), *self),
                t == self.toks(),
                t == old(self).toks(),
                i0 == old(self).index as int,
                sp_group_items(t, i0, Seq::empty()) == sp_group_items(
                    t,
                    self.index as int,
                    strings_view(columns@),
                ),
            decreases self.tokens@.len() - self.index,
        {
            let ghost acc = strings_view(columns@);
            let ghost i = self.index as int;
            proof {
                lemma_identifier_path(t, i);
            }
            let column = self.parse_identifier_path()?;
            let ghost cv = column@;
            columns.push(column);
            assert(strings_view(columns@) =~= acc.push(cv));
            if !self.matches_kind(TAG_COMMA) {
                return Ok(columns);
            }
        }
    }

    fn parse_limit(&mut self) -> (r: Result<u64, ParseError>)
        requires
            old(self).wf(),
        ensures
            final(self).wf(),
            same_input(*old(self), *final(self)),
            res_is(
                r,
                final(self).index,
                sp_limit(old(self).toks(), old(self).index as int),
                |x: u64| x,
            ),
    {
        if self.index < self.tokens.len() {
            let i = self.index;
            self.index = i + 1;
            match &self.tokens[i].kind {
                TokenKind::Integer(value) => Ok(*value),
                _ => Err(self.error_here("expected integer after LIMIT")),
            }
        } else {
            Err(self.error_here("expected integer after LIMIT"))
        }
    }

    fn peek_infix_op(&self) -> (r: Option<InfixOp>)
        requires
            self.wf(),
        ensures
            r == sp_peek_infix(self.toks(), self.index as int),
    {
        if self.index >= self.tokens.len() {
            return None;
        }
        match &self.tokens[self.index].kind {
            TokenKind::Or => Some(InfixOp::Or),
            TokenKind::And => Some(InfixOp::And),
            TokenKind::Eq => Some(InfixOp::Eq),
            TokenKind::NotEq => Some(InfixOp::NotEq),
            TokenKind::Gt => Some(InfixOp::Gt),
            TokenKind::Lt => Some(InfixOp::Lt),
            TokenKind::Gte => Some(InfixOp::Gte),
            TokenKind::Lte => Some(InfixOp::Lte),
            TokenKind::Like => Some(InfixOp::Like),
            TokenKind::In => Some(InfixOp::In),
            TokenKind::Is => Some(InfixOp::Is),
            TokenKind::Between => Some(InfixOp::Between),
            TokenKind::Not => if self.peek_next_matches_kind(TAG_IN) {
                Some(InfixOp::NotIn)
            } else if self.peek_next_matches_kind(TAG_BETWEEN) {
                Some(InfixOp::NotBetween)
            } else {
                None
            },
            _ => None,
        }
    }

    fn parse_expression(&mut self) -> (r: Result<Expr, ParseError>)
        requires
            old(self).wf(),
        ensures
            final(self).wf(),
            same_input(*old(self), *final(self)),
            res_is(
                r,
                final(self).index,
                sp_bp(old(self).toks(), old(self).index as int, 0),
                |e: Expr| expr_view(e),
            ),
    {
        self.parse_expression_bp(0)
    }

    fn parse_expression_bp(&mut self, min_bp: u8) -> (r: Result<Expr, ParseError>)
        requires
            old(self).wf(),
        ensures
            final(self).wf(),
            same_input(*old(self), *final(self)),
            res_is(
                r,
                final(self).index,
                sp_bp(old(self).toks(), old(self).index as int, min_bp),
                |e: Expr| expr_view(e),
            ),
        decreases old(self).tokens@.len() - old(self).index, 2int,
    {
        let ghost t = self.toks();
        let ghost i0 = self.index as int;
        proof {
            lemma_nud(t, i0);
        }
        let mut left = self.nud()?;
        loop
            invariant
                self.wf(),
                same_input(*old(self), *self),
                t == self.toks(),
                t == old(self).toks(),
                i0 == old(self).index as int,
                i0 < self.index,
                sp_bp(t, i0, min_bp) == sp_loop(t, self.index as int, expr_view(left), min_bp),
            decreases self.tokens@.len() - self.index,
        {
            let op = match self.peek_infix_op() {
                Some(op) => op,
                None => {
                    return Ok(left);
                },
            };
            let (left_bp, right_bp) = op.binding_power();
            if left_bp < min_bp {
                return Ok(left);
            }
            let ghost j0 = self.index as int;
            let ghost lv = expr_view(left);
            self.index = self.index + 1;
            proof {
                lemma_led(t, j0 + 1, lv, op, right_bp);
            }
            left = self.led(left, op, right_bp)?;
        }
    }

    fn nud(&mut self) -> (r: Result<Expr, ParseError>)
        requires
            old(self).wf(),
        ensures
            final(self).wf(),
            same_input(*old(self), *final(self)),
            res_is(
                r,
                final(self).index,
                sp_nud(old(self).toks(), old(self).index as int),
                |e: Expr| expr_view(e),
            ),
        decreases old(self).tokens@.len() - old(self).index, 1int,
    {
        if self.index >= self.tokens.len() {
            return Err(self.error_here("expected expression"));
        }
        let i = self.index;
        self.index = i + 1;
        let kind = clone_kind(&self.tokens[i].kind);
        match kind {
            TokenKind::LParen => {
                let expr = self.parse_expression_bp(0)?;
                self.expect_kind(TAG_RPAREN, "expected )")?;
                Ok(expr)
            },
            TokenKind::Not => {
                let expr = self.parse_expression_bp(PREFIX_NOT_BP)?;
                Ok(Expr::Unary { operator: UnaryOperator::Not, expr: Box::new(expr) })
            },
            TokenKind::Identifier(value) => {
                let value = self.parse_path_rest(value)?;
                Ok(Expr::Identifier(value))
            },
            TokenKind::Integer(value) => Ok(Expr::Literal(Literal::Integer(value))),
            TokenKind::String(value) => Ok(Expr::Literal(Literal::String(value))),
            TokenKind::True => Ok(Expr::Literal(Literal::Boolean(true))),
            TokenKind::False => Ok(Expr::Literal(Literal::Boolean(false))),
            TokenKind::Null => Ok(Expr::Literal(Literal::Null)),
            _ => Err(self.error_here("expected identifier or literal")),
        }
    }

    fn led(&mut self, left: Expr, op: InfixOp, right_bp: u8) -> (r: Result<Expr, ParseError>)
        requires
            old(self).wf(),
        ensures
            final(self).wf(),
            same_input(*old(self), *final(self)),
            res_is(
                r,
                final(self).index,
                sp_led(old(self).toks(), old(self).index as int, expr_view(left), op, right_bp),
                |e: Expr| expr_view(e),
            ),
        decreases old(self).tokens@.len() - old(self).index, 4int,
    {
        match op {
            InfixOp::In => self.led_in_list(left, false),
            InfixOp::NotIn => {
                self.expect_kind(TAG_IN, "expected IN after NOT")?;
                self.led_in_list(left, true)
            },
            InfixOp::Is => self.led_is_null(left),
            InfixOp::Between => self.led_between(left, false),
            InfixOp::NotBetween => {
                self.expect_kind(TAG_BETWEEN, "expected BETWEEN after NOT")?;
                self.led_between(left, true)
            },
            _ => self.led_binary(left, binary_operator(op), right_bp),
        }
    }

    fn led_binary(&mut self, left: Expr, operator: BinaryOperator, right_bp: u8) -> (r: Result<
        Expr,
        ParseError,
    >)
        requires
            old(self).wf(),
        ensures
            final(self).wf(),
            same_input(*old(self), *final(self)),
            res_is(
                r,
                final(self).index,
                match sp_bp(old(self).toks(), old(self).index as int, right_bp) {
                    Err(e) => Err(e),
                    Ok((right, j)) => Ok(
                        (
                            SpecExpr::Binary {
                                left: Box::new(expr_view(left)),
                                operator,
                                right: Box::new(right),
                            },
                            j,
                        ),
                    ),
                },
                |e: Expr| expr_view(e),
            ),
        decreases old(self).tokens@.len() - old(self).index, 3int,
    {
        let right = self.parse_expression_bp(right_bp)?;
        Ok(Expr::Binary { left: Box::new(left), operator, right: Box::new(right) })
    }

    fn led_is_null(&mut self, left: Expr) -> (r: Result<Expr, ParseError>)
        requires
            old(self).wf(),
        ensures
            final(self).wf(),
            same_input(*old(self), *final(self)),
            res_is(
                r,
                final(self).index,
                sp_led(old(self).toks(), old(self).index as int, expr_view(left), InfixOp::Is, 31),
                |e: Expr| expr_view(e),
            ),
    {
        let negated = self.matches_kind(TAG_NOT);
        self.expect_kind(TAG_NULL, "expected NULL after IS")?;
        Ok(Expr::IsNull { expr: Box::new(left), negated })
    }

    fn led_in_list(&mut self, left: Expr, negated: bool) -> (r: Result<Expr, ParseError>)
        requires
            old(self).wf(),
        ensures
            final(self).wf(),
            same_input(*old(self), *final(self)),
            res_is(
                r,
                final(self).index,
                sp_in_list(old(self).toks(), old(self).index as int, expr_view(left), negated),
                |e: Expr| expr_view(e),
            ),
        decreases old(self).tokens@.len() - old(self).index, 3int,
    {
        self.expect_kind(TAG_LPAREN, "expected ( after IN")?;
        let values = self.parse_expression_list()?;
        self.expect_kind(TAG_RPAREN, "expected ) after IN list")?;
        Ok(Expr::InList { expr: Box::new(left), values, negated })
    }

    /// A comma-separated, non-empty list of expressions.
    fn parse_expression_list(&mut self) -> (r: Result<Vec<Expr>, ParseError>)
        requires
            old(self).wf(),
        ensures
            final(self).wf(),
            same_input(*old(self), *final(self)),
            res_is(
                r,
                final(self).index,
                sp_list_items(old(self).toks(), old(self).index as int, Seq::empty()),
                |v: Vec<Expr>| exprs_view(v@),
            ),
        decreases old(self).tokens@.len() - old(self).index, 3int,
    {
        let ghost t = self.toks();
        let ghost i0 = self.index as int;
        let mut values: Vec<Expr> = Vec::new();
        assert(exprs_view(values@) =~= Seq::<SpecExpr>::empty());
        loop
            invariant
                self.wf(),
                same_input(*old(self), *self),
                t == self.toks(),
                t == old(self).toks(),
                i0 == old(self).index as int,
                i0 <= self.index,
                sp_list_items(t, i0, Seq::empty()) == sp_list_items(
                    t,
                    self.index as int,
                    exprs_view(values@),
                ),
            decreases self.tokens@.len() - self.index,
        {
            let ghost acc = exprs_view(values@);
            let ghost old_values = values@;
            let ghost i = self.index as int;
            proof {
                lemma_bp(t, i, 0);
            }
            let value = self.parse_expression_bp(0)?;
            let ghost vv = expr_view(value);
            values.push(value);
            assert(values@.drop_last() =~= old_values);
            assert(exprs_view(values@) == acc.push(vv));
            if !self.matches_kind(TAG_COMMA) {
                return Ok(values);
            }
        }
    }

    fn led_between(&mut self, left: Expr, negated: bool) -> (r: Result<Expr, ParseError>)
        requires
            old(self).wf(),
        ensures
            final(self).wf(),
            same_input(*old(self), *final(self)),
            res_is(
                r,
                final(self).index,
                sp_between(old(self).toks(), old(self).index as int, expr_view(left), negated),
                |e: Expr| expr_view(e),
            ),
        decreases old(self).tokens@.len() - old(self).index, 3int,
    {
        let ghost t = self.toks();
        let ghost i0 = self.index as int;
        proof {
            lemma_bp(t, i0, BETWEEN_BOUND_BP);
        }
        let low = self.parse_expression_bp(BETWEEN_BOUND_BP)?;
        self.expect_kind(TAG_AND, "expected AND in BETWEEN")?;
        let high = self.parse_expression_bp(BETWEEN_BOUND_BP)?;
        Ok(Expr::Between { expr: Box::new(left), low: Box::new(low), high: Box::new(high), negated })
    }
}

impl QueryParser {
    fn parse_join(&mut self) -> (r: Result<Join, ParseError>)
        requires
            old(self).wf(),
        ensures
            final(self).wf(),
            same_input(*old(self), *final(self)),
            res_is(
                r,
                final(self).index,
                sp_join(old(self).toks(), old(self).index as int),
                |j: Join| join_view(j),
            ),
    {
        let table = self.parse_table_ref()?;
        self.expect_kind(TAG_ON, "expected ON after JOIN table")?;
        let on = self.parse_expression()?;
        Ok(Join { table, on })
    }

    fn parse_joins(&mut self) -> (joins: Vec<Join>)
        requires
            old(self).wf(),
        ensures
            final(self).wf(),
            final(self).tokens@ == old(self).tokens@,
            final(self).eof == old(self).eof,
            sp_joins(
                old(self).toks(),
                old(self).index as int,
                Seq::empty(),
                diagnostics_view(old(self).diagnostics@),
            ) == (joins_view(joins@), final(self).index as int, diagnostics_view(
                final(self).diagnostics@,
            )),
    {
        let ghost t = self.toks();
        let ghost i0 = self.index as int;
        let ghost d0 = diagnostics_view(self.diagnostics@);
        let mut joins: Vec<Join> = Vec::new();
        assert(joins_view(joins@) =~= Seq::<SpecJoin>::empty());
        while self.check(TAG_JOIN)
            invariant
                self.wf(),
                self.tokens@ == old(self).tokens@,
                self.eof == old(self).eof,
                t == self.toks(),
                sp_joins(t, i0, Seq::empty(), d0) == sp_joins(
                    t,
                    self.index as int,
                    joins_view(joins@),
                    diagnostics_view(self.diagnostics@),
                ),
            decreases self.tokens@.len() - self.index,
        {
            let ghost i = self.index as int;
            let ghost acc = joins_view(joins@);
            self.index = self.index + 1;
            proof {
                lemma_join(t, i + 1);
            }
            match self.parse_join() {
                Ok(join) => {
                    let ghost jv = join_view(join);
                    joins.push(join);
                    assert(joins_view(joins@) =~= acc.push(jv));
                },
                Err(error) => {
                    proof {
                        lemma_recover(t, self.index as int);
                    }
                    let ghost e = error@;
                    let ghost d = diagnostics_view(self.diagnostics@);
                    self.absorb(error);
                    assert(d + e =~= d.push(e[0]));
                },
            }
        }
        joins
    }

    /// Stage ensures: state after a clause is the spec's `(value, index, diagnostics)`.
    fn parse_head(&mut self) -> (r: (bool, Vec<SelectItem>))
        requires
            old(self).wf(),
            old(self).index == 0,
            old(self).diagnostics@.len() == 0,
        ensures
            final(self).wf(),
            final(self).tokens@ == old(self).tokens@,
            final(self).eof == old(self).eof,
            sp_head(old(self).toks()) == (
                r.0,
                select_items_view(r.1@),
                final(self).index as int,
                diagnostics_view(final(self).diagnostics@),
            ),
    {
        assert(diagnostics_view(self.diagnostics@) =~= Seq::<SpecDiagnostic>::empty());
        if !self.matches_kind(TAG_SELECT) {
            let error = self.error_here("expected SELECT");
            self.absorb(error);
        }
        let distinct = self.matches_kind(TAG_DISTINCT);
        let select = match self.parse_select_list() {
            Ok(items) => items,
            Err(error) => {
                self.absorb(error);
                Vec::new()
            },
        };
        assert(select_items_view(Seq::<SelectItem>::empty()) =~= Seq::<SpecSelectItem>::empty());
        (distinct, select)
    }

    fn parse_from_clause(&mut self) -> (r: TableRef)
        requires
            old(self).wf(),
        ensures
            final(self).wf(),
            final(self).tokens@ == old(self).tokens@,
            final(self).eof == old(self).eof,
            sp_from_clause(
                old(self).toks(),
                old(self).index as int,
                diagnostics_view(old(self).diagnostics@),
            ) == (table_ref_view(r), final(self).index as int, diagnostics_view(
                final(self).diagnostics@,
            )),
    {
        if !self.matches_kind(TAG_FROM) {
            let error = self.error_here("expected FROM");
            self.absorb(error);
            self.matches_kind(TAG_FROM);
        }
        match self.parse_table_ref() {
            Ok(table) => table,
            Err(error) => {
                self.absorb(error);
                TableRef { name: String::new(), alias: None }
            },
        }
    }

    fn parse_condition_clause(&mut self, tag: u8) -> (r: Option<Expr>)
        requires
            old(self).wf(),
        ensures
            final(self).wf(),
            final(self).tokens@ == old(self).tokens@,
            final(self).eof == old(self).eof,
            sp_condition_clause(
                old(self).toks(),
                old(self).index as int,
                tag,
                diagnostics_view(old(self).diagnostics@),
            ) == (opt_expr_view(r), final(self).index as int, diagnostics_view(
                final(self).diagnostics@,
            )),
    {
        if self.matches_kind(tag) {
            match self.parse_expression() {
                Ok(expr) => Some(expr),
                Err(error) => {
                    self.absorb(error);
                    None
                },
            }
        } else {
            None
        }
    }

    fn parse_group_clause(&mut self) -> (r: Vec<String>)
        requires
            old(self).wf(),
        ensures
            final(self).wf(),
            final(self).tokens@ == old(self).tokens@,
            final(self).eof == old(self).eof,
            sp_group_clause(
                old(self).toks(),
                old(self).index as int,
                diagnostics_view(old(self).diagnostics@),
            ) == (strings_view(r@), final(self).index as int, diagnostics_view(
                final(self).diagnostics@,
            )),
    {
        assert(strings_view(Seq::<String>::empty()) =~= Seq::<Seq<char>>::empty());
        if self.matches_kind(TAG_GROUP) {
            if !self.matches_kind(TAG_BY) {
                let error = self.error_here("expected BY after GROUP");
                self.absorb(error);
                self.matches_kind(TAG_BY);
            }
            match self.parse_group_by() {
                Ok(columns) => columns,
                Err(error) => {
                    self.absorb(error);
                    Vec::new()
                },
            }
        } else {
            Vec::new()
        }
    }

    fn parse_order_clause(&mut self) -> (r: Vec<OrderBy>)
        requires
            old(self).wf(),
        ensures
            final(self).wf(),
            final(self).tokens@ == old(self).tokens@,
            final(self).eof == old(self).eof,
            sp_order_clause(
                old(self).toks(),
                old(self).index as int,
                diagnostics_view(old(self).diagnostics@),
            ) == (order_bys_view(r@), final(self).index as int, diagnostics_view(
                final(self).diagnostics@,
            )),
    {
        assert(order_bys_view(Seq::<OrderBy>::empty()) =~= Seq::<SpecOrderBy>::empty());
        if self.matches_kind(TAG_ORDER) {
            if !self.matches_kind(TAG_BY) {
                let error = self.error_here("expected BY after ORDER");
                self.absorb(error);
                self.matches_kind(TAG_BY);
            }
            match self.parse_order_by() {
                Ok(clauses) => clauses,
                Err(error) => {
                    self.absorb(error);
                    Vec::new()
                },
            }
        } else {
            Vec::new()
        }
    }

    fn parse_limit_clause(&mut self) -> (r: Option<u64>)
        requires
            old(self).wf(),
        ensures
            final(self).wf(),
            final(self).tokens@ == old(self).tokens@,
            final(self).eof == old(self).eof,
            sp_limit_clause(
                old(self).toks(),
                old(self).index as int,
                diagnostics_view(old(self).diagnostics@),
            ) == (r, final(self).index as int, diagnostics_view(final(self).diagnostics@)),
    {
        if self.matches_kind(TAG_LIMIT) {
            match self.parse_limit() {
                Ok(value) => Some(value),
                Err(error) => {
                    self.absorb(error);
                    None
                },
            }
        } else {
            None
        }
    }

    fn parse_tail(&mut self)
        requires
            old(self).wf(),
        ensures
            final(self).wf(),
            final(self).tokens@ == old(self).tokens@,
            final(self).eof == old(self).eof,
            sp_tail(old(self).toks(), old(self).index as int, diagnostics_view(old(self).diagnostics@))
                == diagnostics_view(final(self).diagnostics@),
    {
        self.matches_kind(TAG_SEMICOLON);
        if !self.is_done() {
            let error = self.error_here("unexpected trailing tokens");
            self.absorb(error);
        }
    }

    fn parse_select(&mut self) -> (r: Result<SelectStatement, ParseError>)
        requires
            old(self).wf(),
            old(self).index == 0,
            old(self).diagnostics@.len() == 0,
        ensures
            match r {
                Ok(s) => sp_select(old(self).toks()) == Ok::<SpecSelect, Seq<SpecDiagnostic>>(
                    select_view(s),
                ),
                Err(e) => sp_select(old(self).toks()) == Err::<SpecSelect, Seq<SpecDiagnostic>>(
                    e@,
                ),
            },
    {
        let (distinct, select) = self.parse_head();
        let from = self.parse_from_clause();
        let joins = self.parse_joins();
        let where_clause = self.parse_condition_clause(TAG_WHERE);
        let group_by = self.parse_group_clause();
        let having = self.parse_condition_clause(TAG_HAVING);
        let order_by = self.parse_order_clause();
        let limit = self.parse_limit_clause();
        self.parse_tail();
        if self.diagnostics.len() == 0 {
            Ok(
                SelectStatement {
                    select,
                    distinct,
                    from,
                    joins,
                    where_clause,
                    group_by,
                    having,
                    order_by,
                    limit,
                },
            )
        } else {
            let mut diagnostics = Vec::new();
            std::mem::swap(&mut diagnostics, &mut self.diagnostics);
            Err(ParseError::from_diagnostics(diagnostics))
        }
    }
}

impl ParseError {
    fn invalid_token(position: usize) -> (e: ParseError)
        ensures
            e@ == seq![
                diag_at("E000"@, "invalid token"@, Span { file_id: 0, start: position, end: position }),
            ],
    {
        Self::new("E000", "invalid token", Span::point(0, position))
    }

    fn new(code: &str, message: &str, span: Span) -> (e: ParseError)
        ensures
            e@ == seq![diag_at(code@, message@, span)],
    {
        let mut labels = Vec::new();
        labels.push(Label { span, message: String::new() });
        let diagnostic = Diagnostic {
            severity: Severity::Error,
            code: Some(code.to_owned()),
            message: message.to_owned(),
            labels,
            notes: Vec::new(),
        };
        assert(labels_view(diagnostic.labels@) =~= seq![SpecLabel { span, message: Seq::empty() }]);
        assert(strings_view(diagnostic.notes@) =~= Seq::<Seq<char>>::empty());
        Self::single(diagnostic)
    }

    fn at(message: &str, span: Span) -> (e: ParseError)
        ensures
            e@ == seq![diag_at("E001"@, message@, span)],
    {
        Self::new("E001", message, span)
    }

    fn single(diagnostic: Diagnostic) -> (e: ParseError)
        ensures
            e@ == seq![diagnostic@],
    {
        let mut diagnostics = Vec::new();
        diagnostics.push(diagnostic);
        assert(diagnostics_view(diagnostics@) =~= seq![diagnostic@]);
        Self { diagnostics }
    }

    fn from_diagnostics(diagnostics: Vec<Diagnostic>) -> (e: ParseError)
        ensures
            e.diagnostics@ == diagnostics@,
    {
        Self { diagnostics }
    }

    /// The message of the first diagnostic, or "parse error" when there is none.
    pub fn message(&self) -> (m: &str)
        ensures
            m@ == if self@.len() > 0 {
                self@[0].message
            } else {
                "parse error"@
            },
    {
        if self.diagnostics.len() > 0 {
            self.diagnostics[0].message.as_str()
        } else {
            "parse error"
        }
    }

    /// The start offset of the first label of the first diagnostic, or 0.
    pub fn position(&self) -> (p: usize)
        ensures
            p == if self@.len() > 0 && self@[0].labels.len() > 0 {
                self@[0].labels[0].span.start
            } else {
                0
            },
    {
        if self.diagnostics.len() > 0 && self.diagnostics[0].labels.len() > 0 {
            self.diagnostics[0].labels[0].span.start
        } else {
            0
        }
    }
}

/// Texts joined by a blank line: each rendered diagnostic ends its last line, and one more
/// line break separates it from the next.
pub open spec fn join_blocks(v: Seq<Seq<char>>) -> Seq<char>
    decreases v.len(),
{
    if v.len() == 0 {
        Seq::empty()
    } else if v.len() == 1 {
        v[0]
    } else {
        join_blocks(v.drop_last()) + "\n\n"@ + v.last()
    }
}

/// Each diagnostic rendered against the one file.
pub open spec fn rendered_blocks(ds: Seq<SpecDiagnostic>, file: SpecFile) -> Seq<Seq<char>> {
    ds.map_values(|d: SpecDiagnostic| diagnostic_text(d, seq![file]))
}

impl ParseError {
    /// Every diagnostic rendered against the query text, separated by blank lines.
    pub fn render(&self, file_name: &str, input: &str) -> (s: String)
        requires
            input.spec_bytes().len() < usize::MAX,
        ensures
            s@ == join_blocks(rendered_blocks(self@, file_model(file_name@, input.spec_bytes()))),
    {
        let file = SourceFile::new(file_name, input);
        let ghost fm = file_model(file_name@, input.spec_bytes());
        let files = vec![file];
        proof {
            assert(files_view(files@) =~= seq![fm]);
        }
        let ghost blocks = rendered_blocks(self@, fm);
        let mut out = String::new();
        let mut i: usize = 0;
        proof {
            assert(blocks.subrange(0, 0) =~= Seq::<Seq<char>>::empty());
        }
        while i < self.diagnostics.len()
            invariant
                files@.len() == 1,
                files@[0].wf(),
                files_view(files@) == seq![fm],
                blocks == rendered_blocks(self@, fm),
                blocks.len() == self.diagnostics@.len(),
                i <= self.diagnostics@.len(),
                out@ == join_blocks(blocks.subrange(0, i as int)),
            decreases self.diagnostics@.len() - i,
        {
            proof {
                assert(blocks.subrange(0, i + 1).drop_last() =~= blocks.subrange(0, i as int));
                assert(blocks.subrange(0, i + 1).last() == blocks[i as int]);
                assert(blocks.subrange(0, i + 1)[0] == blocks[0]);
                assert(crate::sql::diagnostic::all_wf(files@));
            }
            let text = self.diagnostics[i].render(files.as_slice());
            if i > 0 {
                push_str(&mut out, "\n\n");
            }
            push_str(&mut out, text.as_str());
            assert(out@ =~= join_blocks(blocks.subrange(0, i + 1)));
            i = i + 1;
        }
        proof {
            assert(blocks.subrange(0, blocks.len() as int) =~= blocks);
        }
        out
    }
}

/// Parses a query. The result is exactly `spec_parse_query` of the query's UTF-8 bytes:
/// the statement when the query is well formed, otherwise every diagnostic found.
pub fn parse_query(input: &str) -> (r: Result<SelectStatement, ParseError>)
    ensures
        match r {
            Ok(s) => spec_parse_query(input.spec_bytes()) == Ok::<SpecSelect, Seq<SpecDiagnostic>>(
                select_view(s),
            ),
            Err(e) => spec_parse_query(input.spec_bytes()) == Err::<SpecSelect, Seq<SpecDiagnostic>>(
                e@,
            ),
        },
        r matches Ok(s) ==> keys_read_from(
            spec_lex(input.spec_bytes())->Ok_0,
            0,
            order_bys_view(s.order_by@),
            0,
        ),
{
    let tokens = match lex(input) {
        Ok(tokens) => tokens,
        Err(position) => {
            return Err(ParseError::invalid_token(position));
        },
    };
    proof {
        lemma_statement_order_keys(tokens_view(tokens@));
    }
    let mut parser = QueryParser::new(tokens);
    parser.parse_select()
}

} // verus!
