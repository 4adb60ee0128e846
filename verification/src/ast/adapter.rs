use vstd::prelude::*;

use crate::ast::rows::{
    CallRow, CommentRow, FingerprintRow, FunctionRow, ImportRow, SpecCallRow, SpecCommentRow,
    SpecFingerprintRow, SpecFunctionRow, SpecImportRow, SpecStructRow, SpecVariableRow, StructRow,
    TableBatch, VariableRow,
};
use crate::ast::syntax::{tree_wf, SyntaxNode, SyntaxTree};
use crate::sql::ast::opt_str_view;
use vstd::string::StringSliceAdditionalSpecFns;

verus! {

// ---------------------------------------------------------------------------
// Rows.
// ---------------------------------------------------------------------------

/// Rows for each table.
pub struct NodeRows {
    pub functions: Seq<SpecFunctionRow>,
    pub calls: Seq<SpecCallRow>,
    pub imports: Seq<SpecImportRow>,
    pub structs: Seq<SpecStructRow>,
    pub variables: Seq<SpecVariableRow>,
    pub comments: Seq<SpecCommentRow>,
    pub fingerprints: Seq<SpecFingerprintRow>,
}

pub open spec fn no_rows() -> NodeRows {
    NodeRows {
        functions: Seq::empty(),
        calls: Seq::empty(),
        imports: Seq::empty(),
        structs: Seq::empty(),
        variables: Seq::empty(),
        comments: Seq::empty(),
        fingerprints: Seq::empty(),
    }
}

pub open spec fn append_rows(a: NodeRows, b: NodeRows) -> NodeRows {
    NodeRows {
        functions: a.functions + b.functions,
        calls: a.calls + b.calls,
        imports: a.imports + b.imports,
        structs: a.structs + b.structs,
        variables: a.variables + b.variables,
        comments: a.comments + b.comments,
        fingerprints: a.fingerprints + b.fingerprints,
    }
}

/// The rows of a batch, each as its view.
pub open spec fn batch_rows(b: TableBatch) -> NodeRows {
    NodeRows {
        functions: b.functions@.map_values(|r: FunctionRow| r@),
        calls: b.calls@.map_values(|r: CallRow| r@),
        imports: b.imports@.map_values(|r: ImportRow| r@),
        structs: b.structs@.map_values(|r: StructRow| r@),
        variables: b.variables@.map_values(|r: VariableRow| r@),
        comments: b.comments@.map_values(|r: CommentRow| r@),
        fingerprints: b.fingerprints@.map_values(|r: FingerprintRow| r@),
    }
}

/// `new` is `old` with `rows` appended; its file and call sets are unchanged.
pub open spec fn appended(old_batch: TableBatch, new_batch: TableBatch, rows: NodeRows) -> bool {
    &&& new_batch.current_file == old_batch.current_file
    &&& new_batch.callsets == old_batch.callsets
    &&& batch_rows(new_batch) == append_rows(batch_rows(old_batch), rows)
}

pub proof fn lemma_append_no_rows(a: NodeRows)
    ensures
        append_rows(a, no_rows()) == a,
{
    assert(append_rows(a, no_rows()) =~= a);
    assert(a.functions + Seq::<SpecFunctionRow>::empty() =~= a.functions);
    assert(a.calls + Seq::<SpecCallRow>::empty() =~= a.calls);
    assert(a.imports + Seq::<SpecImportRow>::empty() =~= a.imports);
    assert(a.structs + Seq::<SpecStructRow>::empty() =~= a.structs);
    assert(a.variables + Seq::<SpecVariableRow>::empty() =~= a.variables);
    assert(a.comments + Seq::<SpecCommentRow>::empty() =~= a.comments);
    assert(a.fingerprints + Seq::<SpecFingerprintRow>::empty() =~= a.fingerprints);
}

pub proof fn lemma_append_assoc(a: NodeRows, b: NodeRows, c: NodeRows)
    ensures
        append_rows(append_rows(a, b), c) == append_rows(a, append_rows(b, c)),
{
    assert(a.functions + b.functions + c.functions =~= a.functions + (b.functions + c.functions));
    assert(a.calls + b.calls + c.calls =~= a.calls + (b.calls + c.calls));
    assert(a.imports + b.imports + c.imports =~= a.imports + (b.imports + c.imports));
    assert(a.structs + b.structs + c.structs =~= a.structs + (b.structs + c.structs));
    assert(a.variables + b.variables + c.variables =~= a.variables + (b.variables + c.variables));
    assert(a.comments + b.comments + c.comments =~= a.comments + (b.comments + c.comments));
    assert(a.fingerprints + b.fingerprints + c.fingerprints =~= a.fingerprints + (b.fingerprints
        + c.fingerprints));
}


/// Every row is of `file`, on a line counted from 1.
pub open spec fn rows_of_file(r: NodeRows, file: Seq<char>) -> bool {
    &&& forall|k: int|
        0 <= k < r.functions.len() ==> (#[trigger] r.functions[k]).file == file && r.functions[k].line
            >= 1
    &&& forall|k: int|
        0 <= k < r.calls.len() ==> (#[trigger] r.calls[k]).file == file && r.calls[k].line >= 1
    &&& forall|k: int|
        0 <= k < r.imports.len() ==> (#[trigger] r.imports[k]).file == file && r.imports[k].line >= 1
    &&& forall|k: int|
        0 <= k < r.structs.len() ==> (#[trigger] r.structs[k]).file == file && r.structs[k].line >= 1
    &&& forall|k: int|
        0 <= k < r.variables.len() ==> (#[trigger] r.variables[k]).file == file
            && r.variables[k].line >= 1
    &&& forall|k: int|
        0 <= k < r.comments.len() ==> (#[trigger] r.comments[k]).file == file && r.comments[k].line
            >= 1
    &&& forall|k: int|
        0 <= k < r.fingerprints.len() ==> (#[trigger] r.fingerprints[k]).file == file
            && r.fingerprints[k].line >= 1
}

pub proof fn lemma_append_rows_of_file(a: NodeRows, b: NodeRows, file: Seq<char>)
    requires
        rows_of_file(a, file),
        rows_of_file(b, file),
    ensures
        rows_of_file(append_rows(a, b), file),
{
    let c = append_rows(a, b);
    assert forall|k: int| 0 <= k < c.functions.len() implies (#[trigger] c.functions[k]).file == file
        && c.functions[k].line >= 1 by {
        if k >= a.functions.len() {
            assert(c.functions[k] == b.functions[k - a.functions.len()]);
        }
    }
    assert forall|k: int| 0 <= k < c.calls.len() implies (#[trigger] c.calls[k]).file == file
        && c.calls[k].line >= 1 by {
        if k >= a.calls.len() {
            assert(c.calls[k] == b.calls[k - a.calls.len()]);
        }
    }
    assert forall|k: int| 0 <= k < c.imports.len() implies (#[trigger] c.imports[k]).file == file
        && c.imports[k].line >= 1 by {
        if k >= a.imports.len() {
            assert(c.imports[k] == b.imports[k - a.imports.len()]);
        }
    }
    assert forall|k: int| 0 <= k < c.structs.len() implies (#[trigger] c.structs[k]).file == file
        && c.structs[k].line >= 1 by {
        if k >= a.structs.len() {
            assert(c.structs[k] == b.structs[k - a.structs.len()]);
        }
    }
    assert forall|k: int| 0 <= k < c.variables.len() implies (#[trigger] c.variables[k]).file == file
        && c.variables[k].line >= 1 by {
        if k >= a.variables.len() {
            assert(c.variables[k] == b.variables[k - a.variables.len()]);
        }
    }
    assert forall|k: int| 0 <= k < c.comments.len() implies (#[trigger] c.comments[k]).file == file
        && c.comments[k].line >= 1 by {
        if k >= a.comments.len() {
            assert(c.comments[k] == b.comments[k - a.comments.len()]);
        }
    }
    assert forall|k: int| 0 <= k < c.fingerprints.len() implies (
    #[trigger] c.fingerprints[k]).file == file && c.fingerprints[k].line >= 1 by {
        if k >= a.fingerprints.len() {
            assert(c.fingerprints[k] == b.fingerprints[k - a.fingerprints.len()]);
        }
    }
}

/// Each function row has, at the same place, the fingerprint of the same function: same
/// file, line and name.
pub open spec fn fingerprints_match(r: NodeRows) -> bool {
    &&& r.fingerprints.len() == r.functions.len()
    &&& forall|k: int|
        0 <= k < r.functions.len() ==> (#[trigger] r.fingerprints[k]).file == r.functions[k].file
            && r.fingerprints[k].line == r.functions[k].line && r.fingerprints[k].name
            == r.functions[k].name
}

pub proof fn lemma_append_fingerprints_match(a: NodeRows, b: NodeRows)
    requires
        fingerprints_match(a),
        fingerprints_match(b),
    ensures
        fingerprints_match(append_rows(a, b)),
{
    let c = append_rows(a, b);
    assert forall|k: int| 0 <= k < c.functions.len() implies (#[trigger] c.fingerprints[k]).file
        == c.functions[k].file && c.fingerprints[k].line == c.functions[k].line
        && c.fingerprints[k].name == c.functions[k].name by {
        if k >= a.functions.len() {
            assert(c.functions[k] == b.functions[k - a.functions.len()]);
            assert(c.fingerprints[k] == b.fingerprints[k - a.fingerprints.len()]);
        } else {
            assert(c.functions[k] == a.functions[k]);
            assert(c.fingerprints[k] == a.fingerprints[k]);
        }
    }
}

// ---------------------------------------------------------------------------
// Language adapters.
// ---------------------------------------------------------------------------

/// A language: its grammar, and the rows each node of a tree of it contributes.
pub trait LanguageAdapter {
    /// The rows node `i` contributes, the rows of the file being `file`.
    spec fn node_rows(
        &self,
        src: Seq<u8>,
        nodes: Seq<SyntaxNode>,
        ends: Seq<usize>,
        file: Seq<char>,
        i: int,
    ) -> NodeRows;

    /// The language's name.
    fn language_name(&self) -> &'static str;

    /// The grammar that parses the language.
    fn grammar(&self) -> tree_sitter::Language;

    /// What parsing `src` with the grammar gives: an error when the parser refuses the
    /// grammar, otherwise the nodes of the tree it builds (see `tree_nodes`), if it builds
    /// one.
    spec fn parsed(&self, src: Seq<u8>) -> Result<Option<Seq<RawNode>>, ()>;

    /// Parses `source` with the grammar.
    fn parse(&self, source: &str) -> (r: Result<Option<tree_sitter::Tree>, tree_sitter::LanguageError>)
        ensures
            parse_matches(r, self.parsed(source.spec_bytes())),
    ;

    /// The file extensions of the language, with their dots.
    fn extensions(&self) -> Vec<&'static str>;

    /// Appends the rows of node `i` of the tree to `rows`.
    fn map_node(&self, tree: &SyntaxTree, i: usize, source: &str, rows: &mut TableBatch)
        requires
            i < tree.spec_nodes().len(),
        ensures
            appended(
                *old(rows),
                *final(rows),
                self.node_rows(
                    source.spec_bytes(),
                    tree.spec_nodes(),
                    tree.spec_ends(),
                    old(rows).current_file@,
                    i as int,
                ),
            ),
    ;
}

/// The rows of nodes `0..n`, in pre-order.
pub open spec fn rows_upto<A: LanguageAdapter>(
    adapter: &A,
    src: Seq<u8>,
    nodes: Seq<SyntaxNode>,
    ends: Seq<usize>,
    file: Seq<char>,
    n: int,
) -> NodeRows
    decreases n,
{
    if n <= 0 {
        no_rows()
    } else {
        append_rows(
            rows_upto(adapter, src, nodes, ends, file, n - 1),
            adapter.node_rows(src, nodes, ends, file, n - 1),
        )
    }
}

/// The rows of every node of a tree, in pre-order.
pub open spec fn tree_rows<A: LanguageAdapter>(
    adapter: &A,
    src: Seq<u8>,
    nodes: Seq<SyntaxNode>,
    ends: Seq<usize>,
    file: Seq<char>,
) -> NodeRows {
    rows_upto(adapter, src, nodes, ends, file, nodes.len() as int)
}

/// Appends the rows of every node of the tree, in pre-order, to `rows`.
pub fn map_tree<A: LanguageAdapter>(adapter: &A, tree: &SyntaxTree, source: &str, rows: &mut TableBatch)
    ensures
        appended(
            *old(rows),
            *final(rows),
            tree_rows(
                adapter,
                source.spec_bytes(),
                tree.spec_nodes(),
                tree.spec_ends(),
                old(rows).current_file@,
            ),
        ),
{
    let (nodes, ends) = tree.parts();
    let ghost src = source.spec_bytes();
    let ghost file = rows.current_file@;
    let ghost start = batch_rows(*rows);
    let count = nodes.len();
    let mut i: usize = 0;
    proof {
        lemma_append_no_rows(start);
    }
    while i < count
        invariant
            count == tree.spec_nodes().len(),
            nodes@ == tree.spec_nodes(),
            ends@ == tree.spec_ends(),
            src == source.spec_bytes(),
            file == old(rows).current_file@,
            start == batch_rows(*old(rows)),
            i <= count,
            appended(*old(rows), *rows, rows_upto(adapter, src, nodes@, ends@, file, i as int)),
        decreases count - i,
    {
        adapter.map_node(tree, i, source, rows);
        proof {
            lemma_append_assoc(
                start,
                rows_upto(adapter, src, nodes@, ends@, file, i as int),
                adapter.node_rows(src, nodes@, ends@, file, i as int),
            );
        }
        i = i + 1;
    }
}

// ---------------------------------------------------------------------------
// The tree-sitter parser.
// ---------------------------------------------------------------------------

#[verifier::external_type_specification]
#[verifier::external_body]
pub struct ExLanguage(tree_sitter::Language);

#[verifier::external_type_specification]
#[verifier::external_body]
pub struct ExLanguageError(tree_sitter::LanguageError);

#[verifier::external_type_specification]
#[verifier::external_body]
pub struct ExTree(tree_sitter::Tree);

/// One node of a parsed tree, as plain values: its kind, the field under which it sits,
/// whether it is named, its start and end bytes, the line on which it starts, the index of
/// its parent, and the number of nodes of its subtree (itself included).
pub type RawNode = (Seq<char>, Option<Seq<char>>, bool, usize, usize, usize, Option<usize>, usize);

/// The nodes of a tree, in pre-order: node `i` is the tree's descendant of index `i`
/// (the root being 0), as `TreeCursor::goto_descendant` numbers them.
pub uninterp spec fn tree_nodes(t: tree_sitter::Tree) -> Seq<(Seq<char>, Option<Seq<char>>, bool, usize, usize, usize, Option<usize>, usize)>;

/// `parsed` is what a parse call returned, with the tree given by its nodes.
pub open spec fn parse_matches(
    r: Result<Option<tree_sitter::Tree>, tree_sitter::LanguageError>,
    parsed: Result<Option<Seq<RawNode>>, ()>,
) -> bool {
    match r {
        Err(_) => parsed is Err,
        Ok(None) => parsed == Ok::<Option<Seq<RawNode>>, ()>(None),
        Ok(Some(t)) => parsed == Ok::<Option<Seq<RawNode>>, ()>(Some(tree_nodes(t))),
    }
}

/// The message of a `LanguageError`, as its `Display` writes it.
#[verifier::external_body]
fn grammar_error_text(e: &tree_sitter::LanguageError) -> String {
    e.to_string()
}

/// The number of nodes of the tree: `Node::descendant_count` of `Tree::root_node`.
#[verifier::external_body]
fn tree_size(t: &tree_sitter::Tree) -> (r: usize)
    ensures
        r == tree_nodes(*t).len(),
{
    t.root_node().descendant_count()
}

/// Node `i` of the tree: a cursor from `Tree::walk` moved there by
/// `TreeCursor::goto_descendant`, with `TreeCursor::field_name`, and `Node::kind`,
/// `is_named`, `start_byte`, `end_byte`, the row of `start_position` and
/// `descendant_count` of `TreeCursor::node`. (The grammar's names are ASCII, so the
/// conversions to `str` inside `kind` and `field_name` do not fail.)
#[verifier::external_body]
fn tree_node(t: &tree_sitter::Tree, i: usize) -> (r: (String, Option<String>, bool, usize, usize, usize, usize))
    requires
        i < tree_nodes(*t).len(),
    ensures
        r.0@ == tree_nodes(*t)[i as int].0,
        opt_str_view(r.1) == tree_nodes(*t)[i as int].1,
        r.2 == tree_nodes(*t)[i as int].2,
        r.3 == tree_nodes(*t)[i as int].3,
        r.4 == tree_nodes(*t)[i as int].4,
        r.5 == tree_nodes(*t)[i as int].5,
        r.6 == tree_nodes(*t)[i as int].7,
{
    let mut cursor = t.walk();
    cursor.goto_descendant(i);
    let node = cursor.node();
    let field = match cursor.field_name() {
        Some(f) => Some(f.to_owned()),
        None => None,
    };
    let row = node.start_position().row;
    (node.kind().to_owned(), field, node.is_named(), node.start_byte(), node.end_byte(), row, node.descendant_count())
}

/// The parent of node `i`: `TreeCursor::goto_parent` from node `i`, then
/// `TreeCursor::descendant_index`; none for the root.
#[verifier::external_body]
fn tree_parent(t: &tree_sitter::Tree, i: usize) -> (r: Option<usize>)
    requires
        i < tree_nodes(*t).len(),
    ensures
        r == tree_nodes(*t)[i as int].6,
{
    let mut cursor = t.walk();
    cursor.goto_descendant(i);
    match cursor.goto_parent() {
        true => Some(cursor.descendant_index()),
        false => None,
    }
}

/// Syntax node `n` holds what `raw` describes.
pub open spec fn node_holds(n: SyntaxNode, raw: RawNode) -> bool {
    &&& n.kind@ == raw.0
    &&& opt_str_view(n.field) == raw.1
    &&& n.named == raw.2
    &&& n.start_byte == raw.3
    &&& n.end_byte == raw.4
    &&& n.row == raw.5
    &&& n.parent == raw.6
}

/// The nodes and subtree ends hold the raw nodes: node `i`'s subtree ends at `i` plus its
/// size.
pub open spec fn tree_holds(nodes: Seq<SyntaxNode>, ends: Seq<usize>, raw: Seq<RawNode>) -> bool {
    &&& nodes.len() == raw.len()
    &&& ends.len() == raw.len()
    &&& forall|i: int|
        0 <= i < raw.len() ==> node_holds(#[trigger] nodes[i], raw[i]) && ends[i] == i + raw[i].7
}

/// Raw nodes that make a well-formed tree: every subtree is a non-empty range inside the
/// nodes, every parent comes before its child, and every line number has a successor.
pub open spec fn raw_wf(raw: Seq<RawNode>) -> bool {
    &&& raw.len() < usize::MAX
    &&& forall|i: int|
        0 <= i < raw.len() ==> 0 < (#[trigger] raw[i]).7 && i + raw[i].7 <= raw.len() && raw[i].5
            < usize::MAX && match raw[i].6 {
            Some(p) => p < i,
            None => true,
        }
}

proof fn lemma_holds_wf(nodes: Seq<SyntaxNode>, ends: Seq<usize>, raw: Seq<RawNode>)
    requires
        tree_holds(nodes, ends, raw),
    ensures
        tree_wf(nodes, ends) <==> raw_wf(raw),
{
    if tree_wf(nodes, ends) {
        assert forall|i: int| 0 <= i < raw.len() implies 0 < (#[trigger] raw[i]).7 && i + raw[i].7
            <= raw.len() && raw[i].5 < usize::MAX && match raw[i].6 {
            Some(p) => p < i,
            None => true,
        } by {
            assert(node_holds(nodes[i], raw[i]));
            assert(i < ends[i] <= nodes.len());
        }
    }
    if raw_wf(raw) {
        assert forall|i: int| 0 <= i < nodes.len() implies i < #[trigger] ends[i] <= nodes.len()
            && nodes[i].row < usize::MAX && match nodes[i].parent {
            Some(p) => p < i,
            None => true,
        } by {
            assert(node_holds(nodes[i], raw[i]));
            assert(0 < raw[i].7);
        }
    }
}

/// Reads the nodes of a tree, in pre-order, each with the end of its subtree; `None`
/// exactly when they do not make a well-formed tree.
pub fn read_tree(t: &tree_sitter::Tree) -> (r: Option<SyntaxTree>)
    ensures
        r is Some <==> raw_wf(tree_nodes(*t)),
        r matches Some(st) ==> tree_holds(st.spec_nodes(), st.spec_ends(), tree_nodes(*t)),
{
    let ghost raw = tree_nodes(*t);
    let n = tree_size(t);
    let mut nodes: Vec<SyntaxNode> = Vec::new();
    let mut ends: Vec<usize> = Vec::new();
    let mut i: usize = 0;
    while i < n
        invariant
            raw == tree_nodes(*t),
            n == raw.len(),
            i <= n,
            nodes@.len() == i,
            ends@.len() == i,
            forall|k: int|
                0 <= k < i ==> node_holds(#[trigger] nodes@[k], raw[k]) && ends@[k] == k
                    + raw[k].7,
        decreases n - i,
    {
        let (kind, field, named, start_byte, end_byte, row, size) = tree_node(t, i);
        let parent = tree_parent(t, i);
        if size > usize::MAX - i {
            proof {
                assert(!raw_wf(raw)) by {
                    if raw_wf(raw) {
                        assert(i + raw[i as int].7 <= raw.len());
                    }
                }
            }
            return None;
        }
        nodes.push(SyntaxNode { kind, field, named, start_byte, end_byte, row, parent });
        ends.push(i + size);
        i = i + 1;
    }
    proof {
        lemma_holds_wf(nodes@, ends@, raw);
    }
    SyntaxTree::from_parts(nodes, ends)
}

/// A grammar that the parser refused, with the parser's message.
#[derive(Debug, Clone, PartialEq, Eq)]
pub struct GrammarError {
    pub message: String,
}

/// The rows `walk_source` gives for a parse: the rows of every node of the tree, in
/// pre-order, when the parser built one whose nodes form a well-formed tree; no rows
/// otherwise.
pub open spec fn walked<A: LanguageAdapter>(
    adapter: &A,
    src: Seq<u8>,
    file: Seq<char>,
    parsed: Option<Seq<RawNode>>,
    rows: NodeRows,
) -> bool {
    match parsed {
        Some(raw) => if raw_wf(raw) {
            exists|nodes: Seq<SyntaxNode>, ends: Seq<usize>|
                tree_holds(nodes, ends, raw) && tree_wf(nodes, ends) && rows == tree_rows(
                    adapter,
                    src,
                    nodes,
                    ends,
                    file,
                )
        } else {
            rows == no_rows()
        },
        None => rows == no_rows(),
    }
}

/// Parses `source` with the adapter's grammar and maps every node of the tree, in
/// pre-order, to rows of a batch for `file`.
///
/// An error exactly when the parser refuses the grammar. Otherwise the batch is for
/// `file`, has no call sets, and holds the rows of every node of the tree the parser
/// built, in pre-order.
pub fn walk_source<A: LanguageAdapter>(adapter: &A, file: &str, source: &str) -> (r: Result<
    TableBatch,
    GrammarError,
>)
    ensures
        r is Err <==> adapter.parsed(source.spec_bytes()) is Err,
        r matches Ok(b) ==> {
            &&& b.current_file@ == file@
            &&& b.callsets@.len() == 0
            &&& adapter.parsed(source.spec_bytes()) matches Ok(parsed) && walked(
                adapter,
                source.spec_bytes(),
                file@,
                parsed,
                batch_rows(b),
            )
        },
{
    let ghost src = source.spec_bytes();
    let parsed = adapter.parse(source);
    let tree = match parsed {
        Ok(t) => t,
        Err(e) => {
            return Err(GrammarError { message: grammar_error_text(&e) });
        },
    };
    let mut batch = TableBatch::new(file);
    proof {
        assert(batch_rows(batch).functions =~= no_rows().functions);
        assert(batch_rows(batch).calls =~= no_rows().calls);
        assert(batch_rows(batch).imports =~= no_rows().imports);
        assert(batch_rows(batch).structs =~= no_rows().structs);
        assert(batch_rows(batch).variables =~= no_rows().variables);
        assert(batch_rows(batch).comments =~= no_rows().comments);
        assert(batch_rows(batch).fingerprints =~= no_rows().fingerprints);
    }
    let tree = match tree {
        Some(t) => t,
        None => {
            return Ok(batch);
        },
    };
    let syntax = match read_tree(&tree) {
        Some(s) => s,
        None => {
            return Ok(batch);
        },
    };
    map_tree(adapter, &syntax, source, &mut batch);
    proof {
        let (nodes, ends) = (syntax.spec_nodes(), syntax.spec_ends());
        lemma_holds_wf(nodes, ends, tree_nodes(tree));
        lemma_append_no_rows(tree_rows(adapter, src, nodes, ends, file@));
        assert(append_rows(no_rows(), tree_rows(adapter, src, nodes, ends, file@))
            =~= tree_rows(adapter, src, nodes, ends, file@));
    }
    Ok(batch)
}

} // verus!
