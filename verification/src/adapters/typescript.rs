use vstd::prelude::*;

use crate::ast::syntax::{
    child_by_field, children, children_of, field_child, lemma_child_list_bounds, node_text, text_of,
    tree_wf, SyntaxNode,
    SyntaxTree,
};
use crate::ast::rows::{
    CallRow, CommentRow, FingerprintRow, FunctionRow, ImportRow, SpecCallRow, SpecCommentRow,
    SpecFingerprintRow, SpecFunctionRow, SpecImportRow, SpecStructRow, SpecVariableRow, StructRow,
    TableBatch, VariableRow,
};
use crate::ast::adapter::{
    append_rows, appended, batch_rows, fingerprints_match, lemma_append_fingerprints_match,
    lemma_append_no_rows, lemma_append_rows_of_file, no_rows, rows_of_file, rows_upto, tree_rows,
    parse_matches, raw_wf, tree_holds, walked, LanguageAdapter, NodeRows, RawNode,
};
use crate::ast::analysis::{join_commas, join_items};
use crate::sql::ast::strings_view;
use crate::text::{
    chars_vec, contains_char, find, find_in, first_piece, has_at, push_str, same_text,
    starts_with, string_from, strip_prefixes, strip_prefixes_range, trim, trim_end_char,
    trim_end_char_range, trim_range, trim_start, trim_start_char, trim_start_char_range,
    trim_start_range, trimmed,
};
use vstd::string::StrSliceExecFns;
use vstd::string::StringSliceAdditionalSpecFns;

verus! {

/// The TypeScript (TSX) adapter: maps syntax-tree nodes to rows.
pub struct TypeScriptAdapter;

// ---------------------------------------------------------------------------
// Node kinds.
// ---------------------------------------------------------------------------

/// The text of an optional node.
pub open spec fn opt_text(src: Seq<u8>, nodes: Seq<SyntaxNode>, o: Option<int>) -> Option<
    Seq<char>,
> {
    match o {
        Some(k) => node_text(src, nodes[k]),
        None => None,
    }
}

pub open spec fn or_empty(o: Option<Seq<char>>) -> Seq<char> {
    match o {
        Some(t) => t,
        None => Seq::empty(),
    }
}

/// Kinds that add a decision point.
pub open spec fn is_decision_kind(k: Seq<char>) -> bool {
    ||| k == "if_statement"@
    ||| k == "for_statement"@
    ||| k == "for_in_statement"@
    ||| k == "while_statement"@
    ||| k == "switch_case"@
    ||| k == "catch_clause"@
    ||| k == "conditional_expression"@
}

pub open spec fn is_parameter_kind(k: Seq<char>) -> bool {
    ||| k == "required_parameter"@
    ||| k == "optional_parameter"@
    ||| k == "rest_parameter"@
}

pub open spec fn is_member_kind(k: Seq<char>) -> bool {
    ||| k == "method_definition"@
    ||| k == "public_field_definition"@
    ||| k == "property_signature"@
    ||| k == "public_method_definition"@
    ||| k == "index_signature"@
}

pub open spec fn is_branch_kind(k: Seq<char>) -> bool {
    ||| k == "if_statement"@
    ||| k == "switch_case"@
    ||| k == "conditional_expression"@
    ||| k == "catch_clause"@
}

pub open spec fn is_loop_kind(k: Seq<char>) -> bool {
    ||| k == "for_statement"@
    ||| k == "for_in_statement"@
    ||| k == "while_statement"@
    ||| k == "do_statement"@
}

pub open spec fn is_statement_kind(k: Seq<char>) -> bool {
    ||| k == "lexical_declaration"@
    ||| k == "variable_declaration"@
    ||| k == "expression_statement"@
    ||| k == "return_statement"@
    ||| k == "if_statement"@
    ||| k == "for_statement"@
    ||| k == "for_in_statement"@
    ||| k == "while_statement"@
    ||| k == "switch_statement"@
    ||| k == "throw_statement"@
    ||| k == "try_statement"@
}

pub open spec fn is_error_handling_kind(k: Seq<char>) -> bool {
    k == "try_statement"@ || k == "throw_statement"@
}

fn kind_is(n: &SyntaxNode, k: &str) -> (r: bool)
    ensures
        r == (n.kind@ == k@),
{
    same_text(n.kind.as_str(), k)
}

fn decision_kind(n: &SyntaxNode) -> (r: bool)
    ensures
        r == is_decision_kind(n.kind@),
{
    kind_is(n, "if_statement") || kind_is(n, "for_statement") || kind_is(n, "for_in_statement")
        || kind_is(n, "while_statement") || kind_is(n, "switch_case") || kind_is(n, "catch_clause")
        || kind_is(n, "conditional_expression")
}

fn parameter_kind(n: &SyntaxNode) -> (r: bool)
    ensures
        r == is_parameter_kind(n.kind@),
{
    kind_is(n, "required_parameter") || kind_is(n, "optional_parameter") || kind_is(
        n,
        "rest_parameter",
    )
}

fn member_kind(n: &SyntaxNode) -> (r: bool)
    ensures
        r == is_member_kind(n.kind@),
{
    kind_is(n, "method_definition") || kind_is(n, "public_field_definition") || kind_is(
        n,
        "property_signature",
    ) || kind_is(n, "public_method_definition") || kind_is(n, "index_signature")
}

fn branch_kind(n: &SyntaxNode) -> (r: bool)
    ensures
        r == is_branch_kind(n.kind@),
{
    kind_is(n, "if_statement") || kind_is(n, "switch_case") || kind_is(n, "conditional_expression")
        || kind_is(n, "catch_clause")
}

fn loop_kind(n: &SyntaxNode) -> (r: bool)
    ensures
        r == is_loop_kind(n.kind@),
{
    kind_is(n, "for_statement") || kind_is(n, "for_in_statement") || kind_is(n, "while_statement")
        || kind_is(n, "do_statement")
}

fn statement_kind(n: &SyntaxNode) -> (r: bool)
    ensures
        r == is_statement_kind(n.kind@),
{
    kind_is(n, "lexical_declaration") || kind_is(n, "variable_declaration") || kind_is(
        n,
        "expression_statement",
    ) || kind_is(n, "return_statement") || kind_is(n, "if_statement") || kind_is(
        n,
        "for_statement",
    ) || kind_is(n, "for_in_statement") || kind_is(n, "while_statement") || kind_is(
        n,
        "switch_statement",
    ) || kind_is(n, "throw_statement") || kind_is(n, "try_statement")
}

fn error_handling_kind(n: &SyntaxNode) -> (r: bool)
    ensures
        r == is_error_handling_kind(n.kind@),
{
    kind_is(n, "try_statement") || kind_is(n, "throw_statement")
}

// ---------------------------------------------------------------------------
// Counting children.
// ---------------------------------------------------------------------------

/// How many of `cs` have a kind that `pred` accepts.
pub open spec fn count_kind(
    nodes: Seq<SyntaxNode>,
    cs: Seq<int>,
    pred: spec_fn(Seq<char>) -> bool,
) -> nat
    decreases cs.len(),
{
    if cs.len() == 0 {
        0
    } else {
        count_kind(nodes, cs.drop_last(), pred) + if pred(nodes[cs.last()].kind@) {
            1nat
        } else {
            0nat
        }
    }
}

proof fn lemma_count_kind_bound(nodes: Seq<SyntaxNode>, cs: Seq<int>, pred: spec_fn(Seq<char>) -> bool)
    ensures
        count_kind(nodes, cs, pred) <= cs.len(),
    decreases cs.len(),
{
    if cs.len() > 0 {
        lemma_count_kind_bound(nodes, cs.drop_last(), pred);
    }
}

/// The number of parameters of a parameter list.
pub open spec fn param_count(nodes: Seq<SyntaxNode>, ends: Seq<usize>, p: int) -> nat {
    count_kind(nodes, children(nodes, ends, p), |k: Seq<char>| is_parameter_kind(k))
}

/// The number of members of a class body.
pub open spec fn member_count(nodes: Seq<SyntaxNode>, ends: Seq<usize>, b: int) -> nat {
    count_kind(nodes, children(nodes, ends, b), |k: Seq<char>| is_member_kind(k))
}

fn count_params(nodes: &Vec<SyntaxNode>, ends: &Vec<usize>, p: usize) -> (r: usize)
    requires
        tree_wf(nodes@, ends@),
        p < nodes@.len(),
    ensures
        r == param_count(nodes@, ends@, p as int),
{
    let cs = children_of(nodes, ends, p);
    let ghost cv = cs@.map_values(|k: usize| k as int);
    let ghost pred = |k: Seq<char>| is_parameter_kind(k);
    let mut count: usize = 0;
    let mut t: usize = 0;
    proof {
        assert(cv.subrange(0, 0) =~= Seq::<int>::empty());
    }
    while t < cs.len()
        invariant
            tree_wf(nodes@, ends@),
            p < nodes@.len(),
            cv == cs@.map_values(|k: usize| k as int),
            forall|k: int| 0 <= k < cs@.len() ==> p < #[trigger] cs@[k] < ends@[p as int],
            pred == (|k: Seq<char>| is_parameter_kind(k)),
            t <= cs@.len(),
            count == count_kind(nodes@, cv.subrange(0, t as int), pred),
            count <= t,
        decreases cs@.len() - t,
    {
        proof {
            assert(cv.subrange(0, t + 1).drop_last() =~= cv.subrange(0, t as int));
            assert(cv.subrange(0, t + 1).last() == cs@[t as int] as int);
        }
        if parameter_kind(&nodes[cs[t]]) {
            count = count + 1;
        }
        t = t + 1;
    }
    proof {
        assert(cv.subrange(0, cv.len() as int) =~= cv);
    }
    count
}

fn count_members(nodes: &Vec<SyntaxNode>, ends: &Vec<usize>, b: usize) -> (r: usize)
    requires
        tree_wf(nodes@, ends@),
        b < nodes@.len(),
    ensures
        r == member_count(nodes@, ends@, b as int),
{
    let cs = children_of(nodes, ends, b);
    let ghost cv = cs@.map_values(|k: usize| k as int);
    let ghost pred = |k: Seq<char>| is_member_kind(k);
    let mut count: usize = 0;
    let mut t: usize = 0;
    proof {
        assert(cv.subrange(0, 0) =~= Seq::<int>::empty());
    }
    while t < cs.len()
        invariant
            tree_wf(nodes@, ends@),
            b < nodes@.len(),
            cv == cs@.map_values(|k: usize| k as int),
            forall|k: int| 0 <= k < cs@.len() ==> b < #[trigger] cs@[k] < ends@[b as int],
            pred == (|k: Seq<char>| is_member_kind(k)),
            t <= cs@.len(),
            count == count_kind(nodes@, cv.subrange(0, t as int), pred),
            count <= t,
        decreases cs@.len() - t,
    {
        proof {
            assert(cv.subrange(0, t + 1).drop_last() =~= cv.subrange(0, t as int));
            assert(cv.subrange(0, t + 1).last() == cs@[t as int] as int);
        }
        if member_kind(&nodes[cs[t]]) {
            count = count + 1;
        }
        t = t + 1;
    }
    proof {
        assert(cv.subrange(0, cv.len() as int) =~= cv);
    }
    count
}


// ---------------------------------------------------------------------------
// Visibility.
// ---------------------------------------------------------------------------

/// Child `c` is an accessibility modifier whose trimmed text is `m`.
pub open spec fn modifier_is(src: Seq<u8>, nodes: Seq<SyntaxNode>, c: int, m: Seq<char>) -> bool {
    &&& nodes[c].kind@ == "accessibility_modifier"@
    &&& match node_text(src, nodes[c]) {
        Some(t) => trim(t) == m,
        None => false,
    }
}

pub open spec fn has_modifier(src: Seq<u8>, nodes: Seq<SyntaxNode>, cs: Seq<int>, m: Seq<char>) -> bool {
    exists|k: int| 0 <= k < cs.len() && #[trigger] modifier_is(src, nodes, cs[k], m)
}

/// `private` with a `private` modifier or a name that starts with `_`; otherwise
/// `internal` with a `protected` modifier; otherwise `public`.
pub open spec fn visibility(
    src: Seq<u8>,
    nodes: Seq<SyntaxNode>,
    ends: Seq<usize>,
    name: Seq<char>,
    i: int,
) -> Seq<char> {
    let cs = children(nodes, ends, i);
    if has_modifier(src, nodes, cs, "private"@) {
        "private"@
    } else if name.len() > 0 && name[0] == '_' {
        "private"@
    } else if has_modifier(src, nodes, cs, "protected"@) {
        "internal"@
    } else {
        "public"@
    }
}

fn is_public(nodes: &Vec<SyntaxNode>, ends: &Vec<usize>, source: &str, name: &str, i: usize) -> (r:
    String)
    requires
        tree_wf(nodes@, ends@),
        i < nodes@.len(),
    ensures
        r@ == visibility(source.spec_bytes(), nodes@, ends@, name@, i as int),
{
    let ghost src = source.spec_bytes();
    let cs = children_of(nodes, ends, i);
    let ghost cv = cs@.map_values(|k: usize| k as int);
    let mut private = false;
    let mut protected = false;
    let mut t: usize = 0;
    while t < cs.len()
        invariant
            tree_wf(nodes@, ends@),
            i < nodes@.len(),
            src == source.spec_bytes(),
            cv == cs@.map_values(|k: usize| k as int),
            forall|k: int| 0 <= k < cs@.len() ==> i < #[trigger] cs@[k] < ends@[i as int],
            t <= cs@.len(),
            private == exists|k: int| 0 <= k < t && #[trigger] modifier_is(src, nodes@, cv[k], "private"@),
            protected == exists|k: int|
                0 <= k < t && #[trigger] modifier_is(src, nodes@, cv[k], "protected"@),
        decreases cs@.len() - t,
    {
        let c = &nodes[cs[t]];
        assert(cv[t as int] == cs@[t as int] as int);
        let mut is_private = false;
        let mut is_protected = false;
        if kind_is(c, "accessibility_modifier") {
            match text_of(source, c) {
                Some(text) => {
                    let m = trimmed(text);
                    is_private = same_text(m.as_str(), "private");
                    is_protected = same_text(m.as_str(), "protected");
                },
                None => {},
            }
        }
        assert(is_private == modifier_is(src, nodes@, cv[t as int], "private"@));
        assert(is_protected == modifier_is(src, nodes@, cv[t as int], "protected"@));
        proof {
            if is_private {
                assert(exists|k: int| 0 <= k < t + 1 && #[trigger] modifier_is(src, nodes@, cv[k], "private"@));
            } else if exists|k: int| 0 <= k < t + 1 && #[trigger] modifier_is(src, nodes@, cv[k], "private"@) {
                let k = choose|k: int| 0 <= k < t + 1 && #[trigger] modifier_is(src, nodes@, cv[k], "private"@);
                assert(k < t);
            }
            if is_protected {
                assert(exists|k: int| 0 <= k < t + 1 && #[trigger] modifier_is(src, nodes@, cv[k], "protected"@));
            } else if exists|k: int| 0 <= k < t + 1 && #[trigger] modifier_is(src, nodes@, cv[k], "protected"@) {
                let k = choose|k: int| 0 <= k < t + 1 && #[trigger] modifier_is(src, nodes@, cv[k], "protected"@);
                assert(k < t);
            }
        }
        private = private || is_private;
        protected = protected || is_protected;
        t = t + 1;
    }
    assert(cv.len() == cs@.len());
    let underscore = name.unicode_len() > 0 && name.get_char(0) == '_';
    if private {
        "private".to_owned()
    } else if underscore {
        "private".to_owned()
    } else if protected {
        "internal".to_owned()
    } else {
        "public".to_owned()
    }
}

// ---------------------------------------------------------------------------
// Counting over a subtree.
// ---------------------------------------------------------------------------

/// How many indices of `lo..hi` satisfy `p`.
pub open spec fn count_where(lo: int, hi: int, p: spec_fn(int) -> bool) -> nat
    decreases hi - lo,
{
    if hi <= lo {
        0
    } else {
        count_where(lo, hi - 1, p) + if p(hi - 1) {
            1nat
        } else {
            0nat
        }
    }
}

proof fn lemma_count_where_bound(lo: int, hi: int, p: spec_fn(int) -> bool)
    ensures
        count_where(lo, hi, p) <= if hi > lo {
            hi - lo
        } else {
            0
        },
    decreases hi - lo,
{
    if hi > lo {
        lemma_count_where_bound(lo, hi - 1, p);
    }
}

/// The `operator` child of a binary expression is `&&` or `||`.
pub open spec fn is_logical(src: Seq<u8>, nodes: Seq<SyntaxNode>, ends: Seq<usize>, j: int) -> bool {
    match opt_text(src, nodes, field_child(nodes, ends, j, "operator"@)) {
        Some(t) => trim(t) == "&&"@ || trim(t) == "||"@,
        None => false,
    }
}

pub open spec fn adds_complexity(src: Seq<u8>, nodes: Seq<SyntaxNode>, ends: Seq<usize>, j: int) -> bool {
    ||| is_decision_kind(nodes[j].kind@)
    ||| nodes[j].kind@ == "binary_expression"@ && is_logical(src, nodes, ends, j)
}

/// One plus the decision points of the subtree of `i`: branches, loops, cases, catches,
/// conditional expressions and `&&` / `||`.
pub open spec fn complexity(src: Seq<u8>, nodes: Seq<SyntaxNode>, ends: Seq<usize>, i: int) -> nat {
    1 + count_where(i, ends[i] as int, |j: int| adds_complexity(src, nodes, ends, j))
}

fn logical_operator(nodes: &Vec<SyntaxNode>, ends: &Vec<usize>, source: &str, j: usize) -> (r: bool)
    requires
        tree_wf(nodes@, ends@),
        j < nodes@.len(),
    ensures
        r == is_logical(source.spec_bytes(), nodes@, ends@, j as int),
{
    match child_by_field(nodes, ends, j, "operator") {
        Some(k) => match text_of(source, &nodes[k]) {
            Some(t) => {
                let op = trimmed(t);
                same_text(op.as_str(), "&&") || same_text(op.as_str(), "||")
            },
            None => false,
        },
        None => false,
    }
}

fn count_complexity(nodes: &Vec<SyntaxNode>, ends: &Vec<usize>, source: &str, i: usize) -> (r: usize)
    requires
        tree_wf(nodes@, ends@),
        i < nodes@.len(),
    ensures
        r == complexity(source.spec_bytes(), nodes@, ends@, i as int),
{
    let ghost src = source.spec_bytes();
    let ghost p = |j: int| adds_complexity(src, nodes@, ends@, j);
    let hi = ends[i];
    let mut count: usize = 0;
    let mut j = i;
    while j < hi
        invariant
            tree_wf(nodes@, ends@),
            i < nodes@.len(),
            src == source.spec_bytes(),
            p == (|j: int| adds_complexity(src, nodes@, ends@, j)),
            hi == ends@[i as int],
            hi <= nodes@.len(),
            i <= j <= hi,
            count == count_where(i as int, j as int, p),
        decreases hi - j,
    {
        proof {
            lemma_count_where_bound(i as int, j as int, p);
        }
        let n = &nodes[j];
        let adds = decision_kind(n) || (kind_is(n, "binary_expression") && logical_operator(
            nodes,
            ends,
            source,
            j,
        ));
        if adds {
            count = count + 1;
        }
        j = j + 1;
    }
    proof {
        lemma_count_where_bound(i as int, hi as int, p);
    }
    count + 1
}

// ---------------------------------------------------------------------------
// Fingerprints.
// ---------------------------------------------------------------------------

pub open spec fn is_nesting_kind(k: Seq<char>) -> bool {
    is_branch_kind(k) || is_loop_kind(k)
}

/// How many branches and loops enclose node `j` inside the subtree of `i`.
pub open spec fn nesting_of(nodes: Seq<SyntaxNode>, i: int, j: int) -> nat
    decreases j - i,
{
    if j <= i {
        0
    } else {
        match nodes[j].parent {
            Some(p) => if i <= p < j {
                nesting_of(nodes, i, p as int) + if is_nesting_kind(nodes[p as int].kind@) {
                    1nat
                } else {
                    0nat
                }
            } else {
                0
            },
            None => 0,
        }
    }
}

/// The deepest nesting of a branch or loop among nodes `i..hi`.
pub open spec fn deepest(nodes: Seq<SyntaxNode>, i: int, hi: int) -> nat
    decreases hi - i,
{
    if hi <= i {
        0
    } else {
        let m = deepest(nodes, i, hi - 1);
        let d = nesting_of(nodes, i, hi - 1);
        if is_nesting_kind(nodes[hi - 1].kind@) && d > m {
            d
        } else {
            m
        }
    }
}

pub open spec fn kind_count(nodes: Seq<SyntaxNode>, lo: int, hi: int, pred: spec_fn(Seq<char>) -> bool) -> nat {
    count_where(lo, hi, |j: int| pred(nodes[j].kind@))
}

/// The structural counts of the subtree of node `i`.
pub open spec fn spec_fingerprint(
    nodes: Seq<SyntaxNode>,
    ends: Seq<usize>,
    file: Seq<char>,
    name: Seq<char>,
    params: usize,
    complexity: usize,
    i: int,
) -> SpecFingerprintRow {
    let hi = ends[i] as int;
    SpecFingerprintRow {
        file,
        line: (nodes[i].row + 1) as usize,
        name,
        param_count: params,
        complexity,
        nesting_depth: deepest(nodes, i, hi) as usize,
        branch_count: kind_count(nodes, i, hi, |k: Seq<char>| is_branch_kind(k)) as usize,
        loop_count: kind_count(nodes, i, hi, |k: Seq<char>| is_loop_kind(k)) as usize,
        call_count: kind_count(nodes, i, hi, |k: Seq<char>| k == "call_expression"@) as usize,
        unique_callee_count: 0,
        return_count: kind_count(nodes, i, hi, |k: Seq<char>| k == "return_statement"@) as usize,
        stmt_count: kind_count(nodes, i, hi, |k: Seq<char>| is_statement_kind(k)) as usize,
        has_error_handling: kind_count(nodes, i, hi, |k: Seq<char>| is_error_handling_kind(k)) > 0,
    }
}

proof fn lemma_nesting_bound(nodes: Seq<SyntaxNode>, i: int, j: int)
    ensures
        nesting_of(nodes, i, j) <= if j > i {
            j - i
        } else {
            0
        },
    decreases j - i,
{
    if j > i {
        match nodes[j].parent {
            Some(p) => {
                if i <= p < j {
                    lemma_nesting_bound(nodes, i, p as int);
                }
            },
            None => {},
        }
    }
}

proof fn lemma_deepest_bound(nodes: Seq<SyntaxNode>, i: int, hi: int)
    ensures
        deepest(nodes, i, hi) <= if hi > i {
            hi - i
        } else {
            0
        },
    decreases hi - i,
{
    if hi > i {
        lemma_deepest_bound(nodes, i, hi - 1);
        lemma_nesting_bound(nodes, i, hi - 1);
    }
}


fn nesting_kind(n: &SyntaxNode) -> (r: bool)
    ensures
        r == is_nesting_kind(n.kind@),
{
    branch_kind(n) || loop_kind(n)
}

/// The fingerprint of the function whose node is `i`.
fn extract_fingerprint(
    nodes: &Vec<SyntaxNode>,
    ends: &Vec<usize>,
    file: &String,
    name: String,
    params: usize,
    complexity: usize,
    i: usize,
) -> (r: FingerprintRow)
    requires
        tree_wf(nodes@, ends@),
        i < nodes@.len(),
    ensures
        r@ == spec_fingerprint(nodes@, ends@, file@, name@, params, complexity, i as int),
{
    let ghost ns = nodes@;
    let ghost pb = |k: Seq<char>| is_branch_kind(k);
    let ghost pl = |k: Seq<char>| is_loop_kind(k);
    let ghost pc = |k: Seq<char>| k == "call_expression"@;
    let ghost pr = |k: Seq<char>| k == "return_statement"@;
    let ghost ps = |k: Seq<char>| is_statement_kind(k);
    let ghost pe = |k: Seq<char>| is_error_handling_kind(k);
    let hi = ends[i];
    let mut depths: Vec<usize> = Vec::new();
    let mut deepest_seen: usize = 0;
    let mut branches: usize = 0;
    let mut loops: usize = 0;
    let mut calls: usize = 0;
    let mut return_total: usize = 0;
    let mut statements: usize = 0;
    let mut errors: usize = 0;
    let mut j = i;
    while j < hi
        invariant
            ns == nodes@,
            tree_wf(nodes@, ends@),
            i < nodes@.len(),
            hi == ends@[i as int],
            hi <= nodes@.len(),
            i <= j <= hi,
            pb == (|k: Seq<char>| is_branch_kind(k)),
            pl == (|k: Seq<char>| is_loop_kind(k)),
            pc == (|k: Seq<char>| k == "call_expression"@),
            pr == (|k: Seq<char>| k == "return_statement"@),
            ps == (|k: Seq<char>| is_statement_kind(k)),
            pe == (|k: Seq<char>| is_error_handling_kind(k)),
            depths@.len() == j - i,
            forall|k: int| 0 <= k < j - i ==> #[trigger] depths@[k] == nesting_of(ns, i as int, i + k),
            deepest_seen == deepest(ns, i as int, j as int),
            branches == kind_count(ns, i as int, j as int, pb),
            loops == kind_count(ns, i as int, j as int, pl),
            calls == kind_count(ns, i as int, j as int, pc),
            return_total == kind_count(ns, i as int, j as int, pr),
            statements == kind_count(ns, i as int, j as int, ps),
            errors == kind_count(ns, i as int, j as int, pe),
        decreases hi - j,
    {
        proof {
            lemma_count_where_bound(i as int, j as int, |x: int| pb(ns[x].kind@));
            lemma_count_where_bound(i as int, j as int, |x: int| pl(ns[x].kind@));
            lemma_count_where_bound(i as int, j as int, |x: int| pc(ns[x].kind@));
            lemma_count_where_bound(i as int, j as int, |x: int| pr(ns[x].kind@));
            lemma_count_where_bound(i as int, j as int, |x: int| ps(ns[x].kind@));
            lemma_count_where_bound(i as int, j as int, |x: int| pe(ns[x].kind@));
            lemma_nesting_bound(ns, i as int, j as int);
            lemma_deepest_bound(ns, i as int, j as int);
        }
        let n = &nodes[j];
        let d: usize = if j == i {
            0
        } else {
            match n.parent {
                Some(p) => {
                    if i <= p && p < j {
                        proof {
                            lemma_nesting_bound(ns, i as int, p as int);
                        }
                        let base = depths[p - i];
                        if nesting_kind(&nodes[p]) {
                            base + 1
                        } else {
                            base
                        }
                    } else {
                        0
                    }
                },
                None => 0,
            }
        };
        assert(d == nesting_of(ns, i as int, j as int));
        depths.push(d);
        if nesting_kind(n) && d > deepest_seen {
            deepest_seen = d;
        }
        if branch_kind(n) {
            branches = branches + 1;
        }
        if loop_kind(n) {
            loops = loops + 1;
        }
        if kind_is(n, "call_expression") {
            calls = calls + 1;
        }
        if kind_is(n, "return_statement") {
            return_total = return_total + 1;
        }
        if statement_kind(n) {
            statements = statements + 1;
        }
        if error_handling_kind(n) {
            errors = errors + 1;
        }
        j = j + 1;
    }
    FingerprintRow {
        file: file.clone(),
        line: nodes[i].row + 1,
        name,
        param_count: params,
        complexity,
        nesting_depth: deepest_seen,
        branch_count: branches,
        loop_count: loops,
        call_count: calls,
        unique_callee_count: 0,
        return_count: return_total,
        stmt_count: statements,
        has_error_handling: errors > 0,
    }
}


// ---------------------------------------------------------------------------
// Enclosing declarations.
// ---------------------------------------------------------------------------

pub open spec fn is_class_kind(k: Seq<char>) -> bool {
    k == "class_declaration"@ || k == "abstract_class_declaration"@
}

/// The name of the class that is `j` or encloses it, up to the source file.
pub open spec fn class_name_from(
    src: Seq<u8>,
    nodes: Seq<SyntaxNode>,
    ends: Seq<usize>,
    j: int,
) -> Option<Seq<char>>
    decreases j,
{
    if j < 0 || j >= nodes.len() {
        None
    } else if is_class_kind(nodes[j].kind@) {
        opt_text(src, nodes, field_child(nodes, ends, j, "name"@))
    } else if nodes[j].kind@ == "source_file"@ {
        None
    } else {
        match nodes[j].parent {
            Some(p) => if p < j {
                class_name_from(src, nodes, ends, p as int)
            } else {
                None
            },
            None => None,
        }
    }
}

/// The name of the class around node `j`.
pub open spec fn enclosing_class(src: Seq<u8>, nodes: Seq<SyntaxNode>, ends: Seq<usize>, j: int) -> Option<
    Seq<char>,
> {
    match nodes[j].parent {
        Some(p) => if p < j {
            class_name_from(src, nodes, ends, p as int)
        } else {
            None
        },
        None => None,
    }
}

/// A method name qualified by its class: `Class.method`.
pub open spec fn qualified(
    src: Seq<u8>,
    nodes: Seq<SyntaxNode>,
    ends: Seq<usize>,
    j: int,
    name: Seq<char>,
) -> Seq<char> {
    match enclosing_class(src, nodes, ends, j) {
        Some(owner) => owner + "."@ + name,
        None => name,
    }
}

/// The name of the function or method that is `j` or encloses it, up to the source file.
pub open spec fn function_from(
    src: Seq<u8>,
    nodes: Seq<SyntaxNode>,
    ends: Seq<usize>,
    j: int,
) -> Option<Seq<char>>
    decreases j,
{
    if j < 0 || j >= nodes.len() {
        None
    } else if nodes[j].kind@ == "function_declaration"@ {
        opt_text(src, nodes, field_child(nodes, ends, j, "name"@))
    } else if nodes[j].kind@ == "method_definition"@ {
        match opt_text(src, nodes, field_child(nodes, ends, j, "name"@)) {
            Some(n) => Some(qualified(src, nodes, ends, j, n)),
            None => None,
        }
    } else if nodes[j].kind@ == "source_file"@ {
        None
    } else {
        match nodes[j].parent {
            Some(p) => if p < j {
                function_from(src, nodes, ends, p as int)
            } else {
                None
            },
            None => None,
        }
    }
}

/// The function or method a call is made from, or the empty string at top level.
pub open spec fn caller_of(src: Seq<u8>, nodes: Seq<SyntaxNode>, ends: Seq<usize>, i: int) -> Seq<char> {
    match nodes[i].parent {
        Some(p) => if p < i {
            or_empty(function_from(src, nodes, ends, p as int))
        } else {
            Seq::empty()
        },
        None => Seq::empty(),
    }
}

fn node_name(nodes: &Vec<SyntaxNode>, ends: &Vec<usize>, source: &str, j: usize) -> (r: Option<String>)
    requires
        tree_wf(nodes@, ends@),
        j < nodes@.len(),
    ensures
        match r {
            Some(t) => opt_text(source.spec_bytes(), nodes@, field_child(nodes@, ends@, j as int, "name"@))
                == Some(t@),
            None => opt_text(source.spec_bytes(), nodes@, field_child(nodes@, ends@, j as int, "name"@)) is None,
        },
{
    match child_by_field(nodes, ends, j, "name") {
        Some(k) => match text_of(source, &nodes[k]) {
            Some(t) => Some(t.to_owned()),
            None => None,
        },
        None => None,
    }
}

fn find_enclosing_class_name(nodes: &Vec<SyntaxNode>, ends: &Vec<usize>, source: &str, j: usize) -> (r:
    Option<String>)
    requires
        tree_wf(nodes@, ends@),
        j < nodes@.len(),
    ensures
        match r {
            Some(t) => enclosing_class(source.spec_bytes(), nodes@, ends@, j as int) == Some(t@),
            None => enclosing_class(source.spec_bytes(), nodes@, ends@, j as int) is None,
        },
{
    let ghost src = source.spec_bytes();
    let mut current = match nodes[j].parent {
        Some(p) => p,
        None => {
            return None;
        },
    };
    loop
        invariant
            tree_wf(nodes@, ends@),
            src == source.spec_bytes(),
            current < nodes@.len(),
            enclosing_class(src, nodes@, ends@, j as int) == class_name_from(
                src,
                nodes@,
                ends@,
                current as int,
            ),
        decreases current,
    {
        let n = &nodes[current];
        if kind_is(n, "class_declaration") || kind_is(n, "abstract_class_declaration") {
            return node_name(nodes, ends, source, current);
        }
        if kind_is(n, "source_file") {
            return None;
        }
        match n.parent {
            Some(p) => {
                current = p;
            },
            None => {
                return None;
            },
        }
    }
}

fn qualify_method_name(nodes: &Vec<SyntaxNode>, ends: &Vec<usize>, source: &str, j: usize, name: &str) -> (r:
    String)
    requires
        tree_wf(nodes@, ends@),
        j < nodes@.len(),
    ensures
        r@ == qualified(source.spec_bytes(), nodes@, ends@, j as int, name@),
{
    match find_enclosing_class_name(nodes, ends, source, j) {
        Some(owner) => {
            let mut r = owner;
            push_str(&mut r, ".");
            push_str(&mut r, name);
            r
        },
        None => name.to_owned(),
    }
}

fn find_enclosing_function(nodes: &Vec<SyntaxNode>, ends: &Vec<usize>, source: &str, i: usize) -> (r:
    String)
    requires
        tree_wf(nodes@, ends@),
        i < nodes@.len(),
    ensures
        r@ == caller_of(source.spec_bytes(), nodes@, ends@, i as int),
{
    let ghost src = source.spec_bytes();
    let mut current = match nodes[i].parent {
        Some(p) => p,
        None => {
            return String::new();
        },
    };
    loop
        invariant
            tree_wf(nodes@, ends@),
            src == source.spec_bytes(),
            current < nodes@.len(),
            caller_of(src, nodes@, ends@, i as int) == or_empty(
                function_from(src, nodes@, ends@, current as int),
            ),
        decreases current,
    {
        let n = &nodes[current];
        if kind_is(n, "function_declaration") {
            return match node_name(nodes, ends, source, current) {
                Some(t) => t,
                None => String::new(),
            };
        }
        if kind_is(n, "method_definition") {
            return match node_name(nodes, ends, source, current) {
                Some(t) => qualify_method_name(nodes, ends, source, current, t.as_str()),
                None => String::new(),
            };
        }
        if kind_is(n, "source_file") {
            return String::new();
        }
        match n.parent {
            Some(p) => {
                current = p;
            },
            None => {
                return String::new();
            },
        }
    }
}

// ---------------------------------------------------------------------------
// Functions and methods.
// ---------------------------------------------------------------------------

/// The declared type after `:`, without the colon and surrounding whitespace.
pub open spec fn type_annotation(o: Option<Seq<char>>) -> Seq<char> {
    trim(trim_start_char(trim(or_empty(o)), ':'))
}

pub open spec fn field_params(nodes: Seq<SyntaxNode>, ends: Seq<usize>, i: int) -> nat {
    match field_child(nodes, ends, i, "parameters"@) {
        Some(p) => param_count(nodes, ends, p),
        None => 0,
    }
}

/// A function (`method` false) or method (`method` true) declared at node `i`: its
/// fingerprint and its row. A method is named `Class.method` when it is in a class, and
/// its type comes from its `result` field rather than its `return_type` field.
pub open spec fn callable_rows(
    src: Seq<u8>,
    nodes: Seq<SyntaxNode>,
    ends: Seq<usize>,
    file: Seq<char>,
    i: int,
    method: bool,
) -> NodeRows {
    match opt_text(src, nodes, field_child(nodes, ends, i, "name"@)) {
        None => no_rows(),
        Some(name) => {
            let full = if method {
                qualified(src, nodes, ends, i, name)
            } else {
                name
            };
            let params = field_params(nodes, ends, i) as usize;
            let ret = type_annotation(
                opt_text(
                    src,
                    nodes,
                    field_child(
                        nodes,
                        ends,
                        i,
                        if method {
                            "result"@
                        } else {
                            "return_type"@
                        },
                    ),
                ),
            );
            let cx = complexity(src, nodes, ends, i) as usize;
            NodeRows {
                functions: seq![
                    SpecFunctionRow {
                        file,
                        line: (nodes[i].row + 1) as usize,
                        name: full,
                        visibility: visibility(src, nodes, ends, name, i),
                        param_count: params,
                        return_type: ret,
                        complexity: cx,
                        has_test: false,
                    },
                ],
                fingerprints: seq![spec_fingerprint(nodes, ends, file, full, params, cx, i)],
                ..no_rows()
            }
        },
    }
}

fn annotation_text(source: &str, n: Option<&SyntaxNode>) -> (r: String)
    ensures
        r@ == type_annotation(
            match n {
                Some(x) => node_text(source.spec_bytes(), *x),
                None => None,
            },
        ),
{
    let raw: String = match n {
        Some(x) => match text_of(source, x) {
            Some(t) => t.to_owned(),
            None => String::new(),
        },
        None => String::new(),
    };
    let v = chars_vec(raw.as_str());
    assert(v@.subrange(0, v@.len() as int) =~= v@);
    let (a, b) = trim_range(&v, 0, v.len());
    let c = trim_start_char_range(&v, a, b, ':');
    let (d, e) = trim_range(&v, c, b);
    string_from(&v, d, e)
}

fn map_callable(
    nodes: &Vec<SyntaxNode>,
    ends: &Vec<usize>,
    source: &str,
    i: usize,
    method: bool,
    rows: &mut TableBatch,
)
    requires
        tree_wf(nodes@, ends@),
        i < nodes@.len(),
    ensures
        appended(
            *old(rows),
            *final(rows),
            callable_rows(source.spec_bytes(), nodes@, ends@, old(rows).current_file@, i as int, method),
        ),
{
    let ghost src = source.spec_bytes();
    let name = match node_name(nodes, ends, source, i) {
        Some(t) => t,
        None => {
            proof {
                lemma_append_no_rows(batch_rows(*rows));
            }
            return;
        },
    };
    let full = if method {
        qualify_method_name(nodes, ends, source, i, name.as_str())
    } else {
        name.clone()
    };
    let params = match child_by_field(nodes, ends, i, "parameters") {
        Some(p) => count_params(nodes, ends, p),
        None => 0,
    };
    let type_node = child_by_field(nodes, ends, i, if method { "result" } else { "return_type" });
    let return_type = match type_node {
        Some(k) => annotation_text(source, Some(&nodes[k])),
        None => annotation_text(source, None),
    };
    let complexity = count_complexity(nodes, ends, source, i);
    let fingerprint = extract_fingerprint(nodes, ends, &rows.current_file, full.clone(), params, complexity, i);
    let visibility = is_public(nodes, ends, source, name.as_str(), i);
    let row = FunctionRow {
        file: rows.current_file.clone(),
        line: nodes[i].row + 1,
        name: full,
        visibility,
        param_count: params,
        return_type,
        complexity,
        has_test: false,
    };
    let ghost old_rows = batch_rows(*rows);
    rows.fingerprints.push(fingerprint);
    rows.functions.push(row);
    proof {
        let expected = callable_rows(src, nodes@, ends@, rows.current_file@, i as int, method);
        assert(batch_rows(*rows).functions =~= old_rows.functions + expected.functions);
        assert(batch_rows(*rows).fingerprints =~= old_rows.fingerprints + expected.fingerprints);
        assert(batch_rows(*rows).calls =~= old_rows.calls + expected.calls);
        assert(batch_rows(*rows).imports =~= old_rows.imports + expected.imports);
        assert(batch_rows(*rows).structs =~= old_rows.structs + expected.structs);
        assert(batch_rows(*rows).variables =~= old_rows.variables + expected.variables);
        assert(batch_rows(*rows).comments =~= old_rows.comments + expected.comments);
    }
}


// ---------------------------------------------------------------------------
// Calls.
// ---------------------------------------------------------------------------

/// A call: its callee's text, the function it is made from, and whether the callee is a
/// qualified name.
pub open spec fn call_rows(src: Seq<u8>, nodes: Seq<SyntaxNode>, ends: Seq<usize>, file: Seq<char>, i: int) -> NodeRows {
    match opt_text(src, nodes, field_child(nodes, ends, i, "function"@)) {
        None => no_rows(),
        Some(callee) => NodeRows {
            calls: seq![
                SpecCallRow {
                    file,
                    line: (nodes[i].row + 1) as usize,
                    caller: caller_of(src, nodes, ends, i),
                    callee,
                    is_external: callee.contains('.'),
                },
            ],
            ..no_rows()
        },
    }
}

fn map_call(nodes: &Vec<SyntaxNode>, ends: &Vec<usize>, source: &str, i: usize, rows: &mut TableBatch)
    requires
        tree_wf(nodes@, ends@),
        i < nodes@.len(),
    ensures
        appended(
            *old(rows),
            *final(rows),
            call_rows(source.spec_bytes(), nodes@, ends@, old(rows).current_file@, i as int),
        ),
{
    let ghost src = source.spec_bytes();
    let callee = match child_by_field(nodes, ends, i, "function") {
        Some(k) => match text_of(source, &nodes[k]) {
            Some(t) => t.to_owned(),
            None => {
                proof {
                    lemma_append_no_rows(batch_rows(*rows));
                }
                return;
            },
        },
        None => {
            proof {
                lemma_append_no_rows(batch_rows(*rows));
            }
            return;
        },
    };
    let caller = find_enclosing_function(nodes, ends, source, i);
    let v = chars_vec(callee.as_str());
    let external = contains_char(&v, '.');
    let row = CallRow {
        file: rows.current_file.clone(),
        line: nodes[i].row + 1,
        caller,
        callee,
        is_external: external,
    };
    let ghost old_rows = batch_rows(*rows);
    rows.calls.push(row);
    proof {
        let expected = call_rows(src, nodes@, ends@, rows.current_file@, i as int);
        assert(batch_rows(*rows).calls =~= old_rows.calls + expected.calls);
        assert(batch_rows(*rows) =~= append_rows(old_rows, expected));
    }
}

// ---------------------------------------------------------------------------
// Imports.
// ---------------------------------------------------------------------------

/// The local name an import binds: after `* as`, after ` as ` inside braces, or the
/// default import before ` from `; otherwise nothing.
pub open spec fn import_alias(text: Seq<char>) -> Seq<char> {
    match find(text, "* as "@) {
        Some(k) => trim_end_char(
            trim(first_piece(text.subrange(k + "* as "@.len(), text.len() as int), " from "@)),
            ';',
        ),
        None => if text.contains('{') && text.contains('}') {
            match find(text, " as "@) {
                Some(k) => trim_end_char(
                    trim(first_piece(text.subrange(k + " as "@.len(), text.len() as int), "}"@)),
                    ';',
                ),
                None => Seq::empty(),
            }
        } else {
            let it = trim(trim_end_char(strip_prefixes(text, "import "@), ';'));
            match find(it, " from "@) {
                Some(k) => trim(first_piece(it.subrange(0, k), ","@)),
                None => Seq::empty(),
            }
        },
    }
}

/// The piece of `v[lo..hi]` up to the first `sep`, trimmed, then without trailing `;`.
fn alias_piece(v: &Vec<char>, lo: usize, hi: usize, sep: &str) -> (r: String)
    requires
        lo <= hi <= v@.len(),
    ensures
        r@ == trim_end_char(trim(first_piece(v@.subrange(lo as int, hi as int), sep@)), ';'),
{
    let end = match find_in(v, lo, hi, sep) {
        Some(k) => {
            assert(v@.subrange(lo as int, hi as int).subrange(0, k - lo) =~= v@.subrange(
                lo as int,
                k as int,
            ));
            k
        },
        None => hi,
    };
    let (a, b) = trim_range(v, lo, end);
    let c = trim_end_char_range(v, a, b, ';');
    string_from(v, a, c)
}

pub fn extract_import_alias(text: &str) -> (r: String)
    ensures
        r@ == import_alias(text@),
{
    let v = chars_vec(text);
    let n = v.len();
    assert(v@.subrange(0, n as int) =~= v@);
    match find_in(&v, 0, n, "* as ") {
        Some(k) => {
            let start = k + "* as ".unicode_len();
            assert(v@.subrange(start as int, n as int) =~= text@.subrange(
                k + "* as "@.len(),
                text@.len() as int,
            ));
            return alias_piece(&v, start, n, " from ");
        },
        None => {},
    }
    if contains_char(&v, '{') && contains_char(&v, '}') {
        return match find_in(&v, 0, n, " as ") {
            Some(k) => {
                let start = k + " as ".unicode_len();
                alias_piece(&v, start, n, "}")
            },
            None => String::new(),
        };
    }
    let a = strip_prefixes_range(&v, 0, n, "import ");
    let b = trim_end_char_range(&v, a, n, ';');
    let (c, d) = trim_range(&v, a, b);
    match find_in(&v, c, d, " from ") {
        Some(k) => {
            assert(v@.subrange(c as int, d as int).subrange(0, k - c) =~= v@.subrange(
                c as int,
                k as int,
            ));
            let head_end = match find_in(&v, c, k, ",") {
                Some(e) => {
                    assert(v@.subrange(c as int, k as int).subrange(0, e - c) =~= v@.subrange(
                        c as int,
                        e as int,
                    ));
                    e
                },
                None => k,
            };
            let (x, y) = trim_range(&v, c, head_end);
            string_from(&v, x, y)
        },
        None => String::new(),
    }
}

/// The modules of Node's standard library that count as standard imports.
pub open spec fn is_std_module(m: Seq<char>) -> bool {
    ||| m == "fs"@
    ||| m == "path"@
    ||| m == "url"@
    ||| m == "util"@
    ||| m == "os"@
    ||| m == "crypto"@
    ||| m == "events"@
    ||| m == "stream"@
    ||| m == "buffer"@
    ||| m == "assert"@
    ||| m == "http"@
    ||| m == "https"@
    ||| m == "tty"@
    ||| m == "net"@
}

fn std_module(m: &str) -> (r: bool)
    ensures
        r == is_std_module(m@),
{
    same_text(m, "fs") || same_text(m, "path") || same_text(m, "url") || same_text(m, "util")
        || same_text(m, "os") || same_text(m, "crypto") || same_text(m, "events") || same_text(
        m,
        "stream",
    ) || same_text(m, "buffer") || same_text(m, "assert") || same_text(m, "http") || same_text(
        m,
        "https",
    ) || same_text(m, "tty") || same_text(m, "net")
}

/// An import: its module (the `source` text without quotes, or the statement without
/// its `import` keyword), the name it binds and whether the module is Node's own.
pub open spec fn import_rows(src: Seq<u8>, nodes: Seq<SyntaxNode>, ends: Seq<usize>, file: Seq<char>, i: int) -> NodeRows {
    let text = trim(or_empty(node_text(src, nodes[i])));
    let module = match opt_text(src, nodes, field_child(nodes, ends, i, "source"@)) {
        Some(s) => trim_end_char(trim_start_char(s, '"'), '"'),
        None => strip_prefixes(text, "import "@),
    };
    NodeRows {
        imports: seq![
            SpecImportRow {
                file,
                line: (nodes[i].row + 1) as usize,
                module,
                alias: import_alias(text),
                is_std: is_std_module(module) || starts_with(module, "node:"@),
            },
        ],
        ..no_rows()
    }
}

fn map_import(nodes: &Vec<SyntaxNode>, ends: &Vec<usize>, source: &str, i: usize, rows: &mut TableBatch)
    requires
        tree_wf(nodes@, ends@),
        i < nodes@.len(),
    ensures
        appended(
            *old(rows),
            *final(rows),
            import_rows(source.spec_bytes(), nodes@, ends@, old(rows).current_file@, i as int),
        ),
{
    let ghost src = source.spec_bytes();
    let raw: String = match text_of(source, &nodes[i]) {
        Some(t) => t.to_owned(),
        None => String::new(),
    };
    let text = trimmed(raw.as_str());
    let module: String = match child_by_field(nodes, ends, i, "source") {
        Some(k) => match text_of(source, &nodes[k]) {
            Some(t) => {
                let v = chars_vec(t);
                assert(v@.subrange(0, v@.len() as int) =~= v@);
                let a = trim_start_char_range(&v, 0, v.len(), '"');
                let b = trim_end_char_range(&v, a, v.len(), '"');
                string_from(&v, a, b)
            },
            None => {
                let v = chars_vec(text.as_str());
                assert(v@.subrange(0, v@.len() as int) =~= v@);
                let a = strip_prefixes_range(&v, 0, v.len(), "import ");
                string_from(&v, a, v.len())
            },
        },
        None => {
            let v = chars_vec(text.as_str());
            assert(v@.subrange(0, v@.len() as int) =~= v@);
            let a = strip_prefixes_range(&v, 0, v.len(), "import ");
            string_from(&v, a, v.len())
        },
    };
    let alias = extract_import_alias(text.as_str());
    let mv = chars_vec(module.as_str());
    assert(mv@.subrange(0, mv@.len() as int) =~= mv@);
    let is_std = std_module(module.as_str()) || has_at(&mv, 0, mv.len(), "node:");
    let row = ImportRow {
        file: rows.current_file.clone(),
        line: nodes[i].row + 1,
        module,
        alias,
        is_std,
    };
    let ghost old_rows = batch_rows(*rows);
    rows.imports.push(row);
    proof {
        let expected = import_rows(src, nodes@, ends@, rows.current_file@, i as int);
        assert(batch_rows(*rows).imports =~= old_rows.imports + expected.imports);
        assert(batch_rows(*rows) =~= append_rows(old_rows, expected));
    }
}


// ---------------------------------------------------------------------------
// Classes.
// ---------------------------------------------------------------------------

/// The named nodes of `cs`, in order.
pub open spec fn named_only(nodes: Seq<SyntaxNode>, cs: Seq<int>) -> Seq<int>
    decreases cs.len(),
{
    if cs.len() == 0 {
        Seq::empty()
    } else {
        named_only(nodes, cs.drop_last()) + if nodes[cs.last()].named {
            seq![cs.last()]
        } else {
            Seq::empty()
        }
    }
}

pub open spec fn named_children(nodes: Seq<SyntaxNode>, ends: Seq<usize>, i: int) -> Seq<int> {
    named_only(nodes, children(nodes, ends, i))
}

/// The first of `cs` of kind `k`.
pub open spec fn first_of_kind(nodes: Seq<SyntaxNode>, cs: Seq<int>, k: Seq<char>) -> Option<int>
    decreases cs.len(),
{
    if cs.len() == 0 {
        None
    } else if nodes[cs[0]].kind@ == k {
        Some(cs[0])
    } else {
        first_of_kind(nodes, cs.drop_first(), k)
    }
}

/// The texts of `cs` that have one, in order.
pub open spec fn texts_of(src: Seq<u8>, nodes: Seq<SyntaxNode>, cs: Seq<int>) -> Seq<Seq<char>>
    decreases cs.len(),
{
    if cs.len() == 0 {
        Seq::empty()
    } else {
        texts_of(src, nodes, cs.drop_last()) + match node_text(src, nodes[cs.last()]) {
            Some(t) => seq![t],
            None => Seq::empty(),
        }
    }
}

/// The interfaces a class implements, comma-separated: the named nodes of the
/// `implements_clause` of its `class_heritage`.
pub open spec fn implements_list(src: Seq<u8>, nodes: Seq<SyntaxNode>, ends: Seq<usize>, i: int) -> Seq<char> {
    match first_of_kind(nodes, named_children(nodes, ends, i), "class_heritage"@) {
        None => Seq::empty(),
        Some(h) => match first_of_kind(nodes, named_children(nodes, ends, h), "implements_clause"@) {
            None => Seq::empty(),
            Some(c) => join_commas(texts_of(src, nodes, named_children(nodes, ends, c))),
        },
    }
}

/// A class with a name and a body: its members and what it implements.
pub open spec fn class_rows(src: Seq<u8>, nodes: Seq<SyntaxNode>, ends: Seq<usize>, file: Seq<char>, i: int) -> NodeRows {
    match opt_text(src, nodes, field_child(nodes, ends, i, "name"@)) {
        None => no_rows(),
        Some(name) => match field_child(nodes, ends, i, "body"@) {
            None => no_rows(),
            Some(b) => NodeRows {
                structs: seq![
                    SpecStructRow {
                        file,
                        line: (nodes[i].row + 1) as usize,
                        name,
                        field_count: member_count(nodes, ends, b) as usize,
                        visibility: visibility(src, nodes, ends, name, i),
                        implements: implements_list(src, nodes, ends, i),
                    },
                ],
                ..no_rows()
            },
        },
    }
}

fn named_children_of(nodes: &Vec<SyntaxNode>, ends: &Vec<usize>, i: usize) -> (r: Vec<usize>)
    requires
        tree_wf(nodes@, ends@),
        i < nodes@.len(),
    ensures
        r@.map_values(|k: usize| k as int) == named_children(nodes@, ends@, i as int),
        forall|k: int| 0 <= k < r@.len() ==> i < #[trigger] r@[k] < nodes@.len(),
{
    let cs = children_of(nodes, ends, i);
    let ghost cv = cs@.map_values(|k: usize| k as int);
    let mut r: Vec<usize> = Vec::new();
    let mut t: usize = 0;
    proof {
        assert(cv.subrange(0, 0) =~= Seq::<int>::empty());
        assert(r@.map_values(|k: usize| k as int) =~= named_only(nodes@, cv.subrange(0, 0)));
    }
    while t < cs.len()
        invariant
            tree_wf(nodes@, ends@),
            i < nodes@.len(),
            cv == cs@.map_values(|k: usize| k as int),
            forall|k: int| 0 <= k < cs@.len() ==> i < #[trigger] cs@[k] < ends@[i as int],
            t <= cs@.len(),
            r@.map_values(|k: usize| k as int) == named_only(nodes@, cv.subrange(0, t as int)),
            forall|k: int| 0 <= k < r@.len() ==> i < #[trigger] r@[k] < nodes@.len(),
        decreases cs@.len() - t,
    {
        proof {
            assert(cv.subrange(0, t + 1).drop_last() =~= cv.subrange(0, t as int));
            assert(cv.subrange(0, t + 1).last() == cs@[t as int] as int);
        }
        let c = cs[t];
        if nodes[c].named {
            r.push(c);
        }
        assert(r@.map_values(|k: usize| k as int) =~= named_only(nodes@, cv.subrange(0, t + 1)));
        t = t + 1;
    }
    assert(cv.subrange(0, cv.len() as int) =~= cv);
    r
}

fn first_of_kind_in(nodes: &Vec<SyntaxNode>, cs: &Vec<usize>, k: &str) -> (r: Option<usize>)
    requires
        forall|x: int| 0 <= x < cs@.len() ==> #[trigger] cs@[x] < nodes@.len(),
    ensures
        match r {
            Some(c) => first_of_kind(nodes@, cs@.map_values(|x: usize| x as int), k@) == Some(
                c as int,
            ) && c < nodes@.len(),
            None => first_of_kind(nodes@, cs@.map_values(|x: usize| x as int), k@) is None,
        },
{
    let ghost cv = cs@.map_values(|x: usize| x as int);
    let mut t: usize = 0;
    assert(cv.skip(0) =~= cv);
    while t < cs.len()
        invariant
            forall|x: int| 0 <= x < cs@.len() ==> #[trigger] cs@[x] < nodes@.len(),
            cv == cs@.map_values(|x: usize| x as int),
            t <= cs@.len(),
            first_of_kind(nodes@, cv, k@) == first_of_kind(nodes@, cv.skip(t as int), k@),
        decreases cs@.len() - t,
    {
        assert(cv.skip(t as int)[0] == cs@[t as int] as int);
        if kind_is(&nodes[cs[t]], k) {
            return Some(cs[t]);
        }
        assert(cv.skip(t as int).drop_first() =~= cv.skip(t + 1));
        t = t + 1;
    }
    None
}

fn implements(nodes: &Vec<SyntaxNode>, ends: &Vec<usize>, source: &str, i: usize) -> (r: String)
    requires
        tree_wf(nodes@, ends@),
        i < nodes@.len(),
    ensures
        r@ == implements_list(source.spec_bytes(), nodes@, ends@, i as int),
{
    let ghost src = source.spec_bytes();
    let top = named_children_of(nodes, ends, i);
    let heritage = match first_of_kind_in(nodes, &top, "class_heritage") {
        Some(h) => h,
        None => {
            return String::new();
        },
    };
    let inner = named_children_of(nodes, ends, heritage);
    let clause = match first_of_kind_in(nodes, &inner, "implements_clause") {
        Some(c) => c,
        None => {
            return String::new();
        },
    };
    let names_nodes = named_children_of(nodes, ends, clause);
    let ghost nv = names_nodes@.map_values(|x: usize| x as int);
    let mut names: Vec<String> = Vec::new();
    let mut t: usize = 0;
    proof {
        assert(nv.subrange(0, 0) =~= Seq::<int>::empty());
        assert(strings_view(names@) =~= texts_of(src, nodes@, nv.subrange(0, 0)));
    }
    while t < names_nodes.len()
        invariant
            src == source.spec_bytes(),
            nv == names_nodes@.map_values(|x: usize| x as int),
            forall|k: int| 0 <= k < names_nodes@.len() ==> #[trigger] names_nodes@[k] < nodes@.len(),
            t <= names_nodes@.len(),
            strings_view(names@) == texts_of(src, nodes@, nv.subrange(0, t as int)),
        decreases names_nodes@.len() - t,
    {
        proof {
            assert(nv.subrange(0, t + 1).drop_last() =~= nv.subrange(0, t as int));
            assert(nv.subrange(0, t + 1).last() == names_nodes@[t as int] as int);
        }
        let ghost before = names@;
        match text_of(source, &nodes[names_nodes[t]]) {
            Some(text) => {
                names.push(text.to_owned());
                assert(strings_view(names@) =~= strings_view(before).push(text@));
            },
            None => {},
        }
        assert(strings_view(names@) =~= texts_of(src, nodes@, nv.subrange(0, t + 1)));
        t = t + 1;
    }
    assert(nv.subrange(0, nv.len() as int) =~= nv);
    join_items(&names)
}

fn map_class(nodes: &Vec<SyntaxNode>, ends: &Vec<usize>, source: &str, i: usize, rows: &mut TableBatch)
    requires
        tree_wf(nodes@, ends@),
        i < nodes@.len(),
    ensures
        appended(
            *old(rows),
            *final(rows),
            class_rows(source.spec_bytes(), nodes@, ends@, old(rows).current_file@, i as int),
        ),
{
    let ghost src = source.spec_bytes();
    let name = match node_name(nodes, ends, source, i) {
        Some(t) => t,
        None => {
            proof {
                lemma_append_no_rows(batch_rows(*rows));
            }
            return;
        },
    };
    let body = match child_by_field(nodes, ends, i, "body") {
        Some(b) => b,
        None => {
            proof {
                lemma_append_no_rows(batch_rows(*rows));
            }
            return;
        },
    };
    let field_count = count_members(nodes, ends, body);
    let visibility = is_public(nodes, ends, source, name.as_str(), i);
    let implements = implements(nodes, ends, source, i);
    let row = StructRow {
        file: rows.current_file.clone(),
        line: nodes[i].row + 1,
        name,
        field_count,
        visibility,
        implements,
    };
    let ghost old_rows = batch_rows(*rows);
    rows.structs.push(row);
    proof {
        let expected = class_rows(src, nodes@, ends@, rows.current_file@, i as int);
        assert(batch_rows(*rows).structs =~= old_rows.structs + expected.structs);
        assert(batch_rows(*rows) =~= append_rows(old_rows, expected));
    }
}

// ---------------------------------------------------------------------------
// Variables.
// ---------------------------------------------------------------------------

/// `module` for a declaration directly in the source file, `function` otherwise.
pub open spec fn scope_of(nodes: Seq<SyntaxNode>, i: int) -> Seq<char> {
    match nodes[i].parent {
        Some(p) => if (p as int) < nodes.len() && nodes[p as int].kind@ == "source_file"@ {
            "module"@
        } else {
            "function"@
        },
        None => "function"@,
    }
}

/// `let` declarations and `var` declarations can be reassigned; `const` ones cannot.
pub open spec fn is_mutated(src: Seq<u8>, nodes: Seq<SyntaxNode>, i: int) -> bool {
    let text = or_empty(node_text(src, nodes[i]));
    if nodes[i].kind@ == "lexical_declaration"@ {
        !starts_with(trim_start(text), "const "@)
    } else {
        nodes[i].kind@ == "variable_declaration"@
    }
}

/// The row of declarator `c` of declaration `i`, when it is one and has a name.
pub open spec fn declarator_row(
    src: Seq<u8>,
    nodes: Seq<SyntaxNode>,
    ends: Seq<usize>,
    file: Seq<char>,
    i: int,
    c: int,
) -> Seq<SpecVariableRow> {
    if nodes[c].kind@ == "variable_declarator"@ {
        match opt_text(src, nodes, field_child(nodes, ends, c, "name"@)) {
            None => Seq::empty(),
            Some(name) => seq![
                SpecVariableRow {
                    file,
                    line: (nodes[c].row + 1) as usize,
                    name,
                    type_hint: or_empty(opt_text(src, nodes, field_child(nodes, ends, c, "type"@))),
                    scope: scope_of(nodes, i),
                    is_mutated: is_mutated(src, nodes, i),
                },
            ],
        }
    } else {
        Seq::empty()
    }
}

pub open spec fn declarator_rows(
    src: Seq<u8>,
    nodes: Seq<SyntaxNode>,
    ends: Seq<usize>,
    file: Seq<char>,
    i: int,
    cs: Seq<int>,
) -> Seq<SpecVariableRow>
    decreases cs.len(),
{
    if cs.len() == 0 {
        Seq::empty()
    } else {
        declarator_rows(src, nodes, ends, file, i, cs.drop_last()) + declarator_row(
            src,
            nodes,
            ends,
            file,
            i,
            cs.last(),
        )
    }
}

/// One row per named declarator of a declaration.
pub open spec fn variable_rows(src: Seq<u8>, nodes: Seq<SyntaxNode>, ends: Seq<usize>, file: Seq<char>, i: int) -> NodeRows {
    NodeRows {
        variables: declarator_rows(src, nodes, ends, file, i, children(nodes, ends, i)),
        ..no_rows()
    }
}

fn mutated(nodes: &Vec<SyntaxNode>, source: &str, i: usize) -> (r: bool)
    requires
        i < nodes@.len(),
    ensures
        r == is_mutated(source.spec_bytes(), nodes@, i as int),
{
    let n = &nodes[i];
    if kind_is(n, "lexical_declaration") {
        let raw: String = match text_of(source, n) {
            Some(t) => t.to_owned(),
            None => String::new(),
        };
        let v = chars_vec(raw.as_str());
        assert(v@.subrange(0, v@.len() as int) =~= v@);
        let a = trim_start_range(&v, 0, v.len());
        let found = has_at(&v, a, v.len(), "const ");
        proof {
            let rest = v@.subrange(a as int, v@.len() as int);
            if "const "@.len() <= rest.len() {
                assert(rest.subrange(0, "const "@.len() as int) =~= v@.subrange(
                    a as int,
                    a + "const "@.len(),
                ));
            }
        }
        !found
    } else {
        kind_is(n, "variable_declaration")
    }
}

fn map_variable(nodes: &Vec<SyntaxNode>, ends: &Vec<usize>, source: &str, i: usize, rows: &mut TableBatch)
    requires
        tree_wf(nodes@, ends@),
        i < nodes@.len(),
    ensures
        appended(
            *old(rows),
            *final(rows),
            variable_rows(source.spec_bytes(), nodes@, ends@, old(rows).current_file@, i as int),
        ),
{
    let ghost src = source.spec_bytes();
    let ghost file = rows.current_file@;
    let ghost old_rows = batch_rows(*rows);
    let scope = match nodes[i].parent {
        Some(p) => {
            if p < nodes.len() && kind_is(&nodes[p], "source_file") {
                "module"
            } else {
                "function"
            }
        },
        None => "function",
    };
    assert(scope@ == scope_of(nodes@, i as int));
    let is_mut = mutated(nodes, source, i);
    let cs = children_of(nodes, ends, i);
    let ghost cv = cs@.map_values(|k: usize| k as int);
    let mut t: usize = 0;
    proof {
        assert(cv.subrange(0, 0) =~= Seq::<int>::empty());
        assert(batch_rows(*rows).variables =~= old_rows.variables + declarator_rows(
            src,
            nodes@,
            ends@,
            file,
            i as int,
            cv.subrange(0, 0),
        ));
    }
    while t < cs.len()
        invariant
            tree_wf(nodes@, ends@),
            i < nodes@.len(),
            src == source.spec_bytes(),
            file == rows.current_file@,
            rows.current_file == old(rows).current_file,
            rows.callsets == old(rows).callsets,
            old_rows == batch_rows(*old(rows)),
            cv == cs@.map_values(|k: usize| k as int),
            forall|k: int| 0 <= k < cs@.len() ==> i < #[trigger] cs@[k] < ends@[i as int],
            scope@ == scope_of(nodes@, i as int),
            is_mut == is_mutated(src, nodes@, i as int),
            t <= cs@.len(),
            batch_rows(*rows).functions == old_rows.functions,
            batch_rows(*rows).calls == old_rows.calls,
            batch_rows(*rows).imports == old_rows.imports,
            batch_rows(*rows).structs == old_rows.structs,
            batch_rows(*rows).comments == old_rows.comments,
            batch_rows(*rows).fingerprints == old_rows.fingerprints,
            batch_rows(*rows).variables == old_rows.variables + declarator_rows(
                src,
                nodes@,
                ends@,
                file,
                i as int,
                cv.subrange(0, t as int),
            ),
        decreases cs@.len() - t,
    {
        proof {
            assert(cv.subrange(0, t + 1).drop_last() =~= cv.subrange(0, t as int));
            assert(cv.subrange(0, t + 1).last() == cs@[t as int] as int);
        }
        let c = cs[t];
        let ghost before = batch_rows(*rows).variables;
        if kind_is(&nodes[c], "variable_declarator") {
            match node_name(nodes, ends, source, c) {
                Some(name) => {
                    let type_hint: String = match child_by_field(nodes, ends, c, "type") {
                        Some(k) => match text_of(source, &nodes[k]) {
                            Some(t) => t.to_owned(),
                            None => String::new(),
                        },
                        None => String::new(),
                    };
                    let row = VariableRow {
                        file: rows.current_file.clone(),
                        line: nodes[c].row + 1,
                        name,
                        type_hint,
                        scope: scope.to_owned(),
                        is_mutated: is_mut,
                    };
                    rows.variables.push(row);
                    assert(batch_rows(*rows).variables =~= before + declarator_row(
                        src,
                        nodes@,
                        ends@,
                        file,
                        i as int,
                        c as int,
                    ));
                },
                None => {
                    assert(before + declarator_row(src, nodes@, ends@, file, i as int, c as int)
                        =~= before);
                },
            }
        } else {
            assert(before + declarator_row(src, nodes@, ends@, file, i as int, c as int) =~= before);
        }
        assert(batch_rows(*rows).variables =~= old_rows.variables + declarator_rows(
            src,
            nodes@,
            ends@,
            file,
            i as int,
            cv.subrange(0, t + 1),
        ));
        t = t + 1;
    }
    proof {
        assert(cv.subrange(0, cv.len() as int) =~= cv);
        let expected = variable_rows(src, nodes@, ends@, file, i as int);
        assert(batch_rows(*rows) =~= append_rows(old_rows, expected));
    }
}

// ---------------------------------------------------------------------------
// Comments.
// ---------------------------------------------------------------------------

/// A comment, trimmed; `/**`, `///` and `/*!` comments are documentation.
pub open spec fn comment_rows(src: Seq<u8>, nodes: Seq<SyntaxNode>, file: Seq<char>, i: int) -> NodeRows {
    match node_text(src, nodes[i]) {
        None => no_rows(),
        Some(t) => {
            let text = trim(t);
            NodeRows {
                comments: seq![
                    SpecCommentRow {
                        file,
                        line: (nodes[i].row + 1) as usize,
                        text,
                        attached_to: Seq::empty(),
                        is_doc: starts_with(text, "/**"@) || starts_with(text, "///"@)
                            || starts_with(text, "/*!"@),
                    },
                ],
                ..no_rows()
            }
        },
    }
}

fn map_comment(nodes: &Vec<SyntaxNode>, ends: &Vec<usize>, source: &str, i: usize, rows: &mut TableBatch)
    requires
        tree_wf(nodes@, ends@),
        i < nodes@.len(),
    ensures
        appended(
            *old(rows),
            *final(rows),
            comment_rows(source.spec_bytes(), nodes@, old(rows).current_file@, i as int),
        ),
{
    let ghost src = source.spec_bytes();
    let text = match text_of(source, &nodes[i]) {
        Some(t) => trimmed(t),
        None => {
            proof {
                lemma_append_no_rows(batch_rows(*rows));
            }
            return;
        },
    };
    let v = chars_vec(text.as_str());
    assert(v@.subrange(0, v@.len() as int) =~= v@);
    proof {
        assert(v@.subrange(0, "/**"@.len() as int) =~= text@.subrange(0, "/**"@.len() as int));
    }
    let is_doc = has_at(&v, 0, v.len(), "/**") || has_at(&v, 0, v.len(), "///") || has_at(
        &v,
        0,
        v.len(),
        "/*!",
    );
    let row = CommentRow {
        file: rows.current_file.clone(),
        line: nodes[i].row + 1,
        text,
        attached_to: String::new(),
        is_doc,
    };
    let ghost old_rows = batch_rows(*rows);
    rows.comments.push(row);
    proof {
        let expected = comment_rows(src, nodes@, rows.current_file@, i as int);
        assert(batch_rows(*rows).comments =~= old_rows.comments + expected.comments);
        assert(batch_rows(*rows) =~= append_rows(old_rows, expected));
    }
}


// ---------------------------------------------------------------------------
// Dispatch and the walk over a tree.
// ---------------------------------------------------------------------------

/// The rows that node `i` contributes, by its kind.
pub open spec fn typescript_rows(
    src: Seq<u8>,
    nodes: Seq<SyntaxNode>,
    ends: Seq<usize>,
    file: Seq<char>,
    i: int,
) -> NodeRows {
    let k = nodes[i].kind@;
    if k == "function_declaration"@ {
        callable_rows(src, nodes, ends, file, i, false)
    } else if k == "method_definition"@ {
        callable_rows(src, nodes, ends, file, i, true)
    } else if k == "call_expression"@ {
        call_rows(src, nodes, ends, file, i)
    } else if k == "import_statement"@ {
        import_rows(src, nodes, ends, file, i)
    } else if is_class_kind(k) {
        class_rows(src, nodes, ends, file, i)
    } else if k == "lexical_declaration"@ || k == "variable_declaration"@ {
        variable_rows(src, nodes, ends, file, i)
    } else if k == "comment"@ {
        comment_rows(src, nodes, file, i)
    } else {
        no_rows()
    }
}

proof fn lemma_declarator_rows_of_file(
    src: Seq<u8>,
    nodes: Seq<SyntaxNode>,
    ends: Seq<usize>,
    file: Seq<char>,
    i: int,
    cs: Seq<int>,
)
    requires
        tree_wf(nodes, ends),
        0 <= i < nodes.len(),
        forall|k: int| 0 <= k < cs.len() ==> 0 <= #[trigger] cs[k] < nodes.len(),
    ensures
        forall|k: int|
            0 <= k < declarator_rows(src, nodes, ends, file, i, cs).len() ==> (
            #[trigger] declarator_rows(src, nodes, ends, file, i, cs)[k]).file == file
                && declarator_rows(src, nodes, ends, file, i, cs)[k].line >= 1,
    decreases cs.len(),
{
    if cs.len() > 0 {
        lemma_declarator_rows_of_file(src, nodes, ends, file, i, cs.drop_last());
        let c = cs.last();
        assert(0 <= cs[cs.len() - 1] < nodes.len());
        assert(nodes[c].row < usize::MAX);
        let a = declarator_rows(src, nodes, ends, file, i, cs.drop_last());
        let b = declarator_row(src, nodes, ends, file, i, c);
        let r = declarator_rows(src, nodes, ends, file, i, cs);
        assert(r == a + b);
        assert forall|k: int| 0 <= k < r.len() implies (#[trigger] r[k]).file == file && r[k].line
            >= 1 by {
            if k >= a.len() {
                assert(r[k] == b[k - a.len()]);
            }
        }
    }
}

proof fn lemma_callable_rows_of_file(
    src: Seq<u8>,
    nodes: Seq<SyntaxNode>,
    ends: Seq<usize>,
    file: Seq<char>,
    i: int,
    method: bool,
)
    requires
        0 <= i < nodes.len(),
        nodes[i].row < usize::MAX,
    ensures
        rows_of_file(callable_rows(src, nodes, ends, file, i, method), file),
{
}

proof fn lemma_single_rows_of_file(
    src: Seq<u8>,
    nodes: Seq<SyntaxNode>,
    ends: Seq<usize>,
    file: Seq<char>,
    i: int,
)
    requires
        0 <= i < nodes.len(),
        nodes[i].row < usize::MAX,
    ensures
        rows_of_file(call_rows(src, nodes, ends, file, i), file),
        rows_of_file(import_rows(src, nodes, ends, file, i), file),
        rows_of_file(class_rows(src, nodes, ends, file, i), file),
        rows_of_file(comment_rows(src, nodes, file, i), file),
        rows_of_file(no_rows(), file),
{
}

#[verifier::spinoff_prover]
proof fn lemma_node_rows_of_file(
    src: Seq<u8>,
    nodes: Seq<SyntaxNode>,
    ends: Seq<usize>,
    file: Seq<char>,
    i: int,
)
    requires
        tree_wf(nodes, ends),
        0 <= i < nodes.len(),
    ensures
        rows_of_file(typescript_rows(src, nodes, ends, file, i), file),
{
    assert(nodes[i].row < usize::MAX);
    let k = nodes[i].kind@;
    if k == "function_declaration"@ {
        lemma_callable_rows_of_file(src, nodes, ends, file, i, false);
    } else if k == "method_definition"@ {
        lemma_callable_rows_of_file(src, nodes, ends, file, i, true);
    } else if k == "lexical_declaration"@ || k == "variable_declaration"@ {
        let cs = children(nodes, ends, i);
        lemma_child_list_bounds(nodes, i, ends[i] as int);
        assert forall|t: int| 0 <= t < cs.len() implies 0 <= #[trigger] cs[t] < nodes.len() by {
            assert(i < cs[t] < ends[i]);
        }
        lemma_declarator_rows_of_file(src, nodes, ends, file, i, cs);
        assert(rows_of_file(variable_rows(src, nodes, ends, file, i), file));
    } else {
        lemma_single_rows_of_file(src, nodes, ends, file, i);
    }
}

/// Every row the TypeScript adapter draws from a tree is of the file it is given, on a
/// line counted from 1.
pub proof fn lemma_typescript_rows_of_file(
    src: Seq<u8>,
    nodes: Seq<SyntaxNode>,
    ends: Seq<usize>,
    file: Seq<char>,
    n: int,
)
    requires
        tree_wf(nodes, ends),
        0 <= n <= nodes.len(),
    ensures
        rows_of_file(rows_upto(&TypeScriptAdapter, src, nodes, ends, file, n), file),
    decreases n,
{
    if n > 0 {
        lemma_typescript_rows_of_file(src, nodes, ends, file, n - 1);
        lemma_node_rows_of_file(src, nodes, ends, file, n - 1);
        lemma_append_rows_of_file(
            rows_upto(&TypeScriptAdapter, src, nodes, ends, file, n - 1),
            typescript_rows(src, nodes, ends, file, n - 1),
            file,
        );
    }
}

/// Every row of a batch that `walk_source` returns for TypeScript is of the file it was
/// asked for, on a line counted from 1, its fingerprints line up with its functions, and
/// its imports are marked standard exactly when they name a Node built-in module.
pub proof fn lemma_walked_rows(
    batch: TableBatch,
    file: Seq<char>,
    src: Seq<u8>,
    parsed: Option<Seq<RawNode>>,
)
    requires
        walked(&TypeScriptAdapter, src, file, parsed, batch_rows(batch)),
    ensures
        rows_of_file(batch_rows(batch), file),
        fingerprints_match(batch_rows(batch)),
        imports_classified(batch_rows(batch)),
{
    let wf = match parsed {
        Some(raw) => raw_wf(raw),
        None => false,
    };
    if wf {
        let raw = parsed->0;
        let (nodes, ends) = choose|nodes: Seq<SyntaxNode>, ends: Seq<usize>|
            tree_holds(nodes, ends, raw) && tree_wf(nodes, ends) && batch_rows(batch) == tree_rows(
                &TypeScriptAdapter,
                src,
                nodes,
                ends,
                file,
            );
        lemma_typescript_rows_of_file(src, nodes, ends, file, nodes.len() as int);
        lemma_typescript_fingerprints_match(src, nodes, ends, file, nodes.len() as int);
        lemma_typescript_imports_classified(src, nodes, ends, file, nodes.len() as int);
    } else {
        lemma_typescript_rows_of_file(Seq::empty(), Seq::empty(), Seq::empty(), file, 0);
        lemma_typescript_fingerprints_match(Seq::empty(), Seq::empty(), Seq::empty(), file, 0);
        lemma_typescript_imports_classified(Seq::empty(), Seq::empty(), Seq::empty(), file, 0);
        assert(rows_upto(&TypeScriptAdapter, Seq::empty(), Seq::empty(), Seq::empty(), file, 0)
            == no_rows());
    }
}

/// The TypeScript adapter gives every function it finds its fingerprint, in the same
/// order: the fingerprint table lines up with the function table, row for row.
pub proof fn lemma_typescript_fingerprints_match(
    src: Seq<u8>,
    nodes: Seq<SyntaxNode>,
    ends: Seq<usize>,
    file: Seq<char>,
    n: int,
)
    requires
        0 <= n <= nodes.len(),
    ensures
        fingerprints_match(rows_upto(&TypeScriptAdapter, src, nodes, ends, file, n)),
    decreases n,
{
    if n > 0 {
        lemma_typescript_fingerprints_match(src, nodes, ends, file, n - 1);
        lemma_append_fingerprints_match(
            rows_upto(&TypeScriptAdapter, src, nodes, ends, file, n - 1),
            typescript_rows(src, nodes, ends, file, n - 1),
        );
    }
}

/// Node's built-in modules, as an import names them without the `node:` scheme.
pub open spec fn node_builtins() -> Set<Seq<char>> {
    set![
        "fs"@, "path"@, "url"@, "util"@, "os"@, "crypto"@, "events"@, "stream"@, "buffer"@,
        "assert"@, "http"@, "https"@, "tty"@, "net"@,
    ]
}

/// Each import row is marked standard exactly when its module is one of Node's built-in
/// modules, by name or by a `node:` path.
pub open spec fn imports_classified(r: NodeRows) -> bool {
    forall|k: int|
        0 <= k < r.imports.len() ==> (#[trigger] r.imports[k]).is_std == (node_builtins().contains(
            r.imports[k].module,
        ) || starts_with(r.imports[k].module, "node:"@))
}

proof fn lemma_append_imports_classified(a: NodeRows, b: NodeRows)
    requires
        imports_classified(a),
        imports_classified(b),
    ensures
        imports_classified(append_rows(a, b)),
{
    let c = append_rows(a, b);
    assert forall|k: int| 0 <= k < c.imports.len() implies (#[trigger] c.imports[k]).is_std == (
    node_builtins().contains(c.imports[k].module) || starts_with(c.imports[k].module, "node:"@)) by {
        if k < a.imports.len() {
            assert(c.imports[k] == a.imports[k]);
        } else {
            assert(c.imports[k] == b.imports[k - a.imports.len()]);
        }
    }
}

/// The TypeScript adapter marks an import as standard exactly when it names one of Node's
/// built-in modules (`fs`, `path`, `url`, `util`, `os`, `crypto`, `events`, `stream`,
/// `buffer`, `assert`, `http`, `https`, `tty`, `net`) or a `node:` path.
pub proof fn lemma_typescript_imports_classified(
    src: Seq<u8>,
    nodes: Seq<SyntaxNode>,
    ends: Seq<usize>,
    file: Seq<char>,
    n: int,
)
    requires
        0 <= n <= nodes.len(),
    ensures
        imports_classified(rows_upto(&TypeScriptAdapter, src, nodes, ends, file, n)),
    decreases n,
{
    if n > 0 {
        lemma_typescript_imports_classified(src, nodes, ends, file, n - 1);
        let r = typescript_rows(src, nodes, ends, file, n - 1);
        assert(imports_classified(r)) by {
            if r.imports.len() > 0 {
                let m = r.imports[0].module;
                assert(is_std_module(m) == node_builtins().contains(m));
            }
        }
        lemma_append_imports_classified(
            rows_upto(&TypeScriptAdapter, src, nodes, ends, file, n - 1),
            r,
        );
    }
}

/// The TSX grammar, which parses TypeScript with JSX.
#[verifier::external_body]
fn tsx_language() -> tree_sitter::Language {
    tree_sitter_typescript::LANGUAGE_TSX.into()
}

/// What parsing a text with the TSX grammar gives: an error when the parser refuses the
/// grammar, otherwise the nodes of the tree it builds (see `tree_nodes`), if it builds one.
pub uninterp spec fn tsx_parsed(source: Seq<u8>) -> Result<Option<Seq<(Seq<char>, Option<Seq<char>>, bool, usize, usize, usize, Option<usize>, usize)>>, ()>;

/// A new `Parser` given the TSX grammar by `Parser::set_language`, then `Parser::parse`
/// of the whole source with no earlier tree. The result is named: it depends on the
/// source alone.
#[verifier::external_body]
fn parse_tsx(source: &str) -> (r: Result<Option<tree_sitter::Tree>, tree_sitter::LanguageError>)
    ensures
        parse_matches(r, tsx_parsed(source.spec_bytes())),
{
    let mut parser = tree_sitter::Parser::new();
    parser.set_language(&tree_sitter_typescript::LANGUAGE_TSX.into())?;
    Ok(parser.parse(source, None))
}

impl LanguageAdapter for TypeScriptAdapter {
    open spec fn node_rows(
        &self,
        src: Seq<u8>,
        nodes: Seq<SyntaxNode>,
        ends: Seq<usize>,
        file: Seq<char>,
        i: int,
    ) -> NodeRows {
        typescript_rows(src, nodes, ends, file, i)
    }

    fn language_name(&self) -> (r: &'static str)
        ensures
            r@ == "typescript"@,
    {
        "typescript"
    }

    fn grammar(&self) -> tree_sitter::Language {
        tsx_language()
    }

    open spec fn parsed(&self, src: Seq<u8>) -> Result<Option<Seq<RawNode>>, ()> {
        tsx_parsed(src)
    }

    fn parse(&self, source: &str) -> (r: Result<Option<tree_sitter::Tree>, tree_sitter::LanguageError>) {
        parse_tsx(source)
    }

    fn extensions(&self) -> (r: Vec<&'static str>)
        ensures
            r@.len() == 2,
            r@[0]@ == ".ts"@,
            r@[1]@ == ".tsx"@,
    {
        let mut r: Vec<&'static str> = Vec::new();
        r.push(".ts");
        r.push(".tsx");
        r
    }

    fn map_node(&self, tree: &SyntaxTree, i: usize, source: &str, rows: &mut TableBatch) {
        let (nodes, ends) = tree.parts();
        let n = &nodes[i];
        if kind_is(n, "function_declaration") {
            map_callable(nodes, ends, source, i, false, rows);
        } else if kind_is(n, "method_definition") {
            map_callable(nodes, ends, source, i, true, rows);
        } else if kind_is(n, "call_expression") {
            map_call(nodes, ends, source, i, rows);
        } else if kind_is(n, "import_statement") {
            map_import(nodes, ends, source, i, rows);
        } else if kind_is(n, "class_declaration") || kind_is(n, "abstract_class_declaration") {
            map_class(nodes, ends, source, i, rows);
        } else if kind_is(n, "lexical_declaration") || kind_is(n, "variable_declaration") {
            map_variable(nodes, ends, source, i, rows);
        } else if kind_is(n, "comment") {
            map_comment(nodes, ends, source, i, rows);
        } else {
            proof {
                lemma_append_no_rows(batch_rows(*rows));
            }
        }
    }
}

} // verus!
