use vstd::prelude::*;

use vstd::string::StringSliceAdditionalSpecFns;
use vstd::utf8::{decode_utf8, is_char_boundary, valid_utf8};

verus! {

// ---------------------------------------------------------------------------
// The syntax tree model: nodes in pre-order, each with its parent and the end of
// its subtree.
// ---------------------------------------------------------------------------

/// One node of a syntax tree.
#[derive(Debug, Clone, PartialEq, Eq)]
pub struct SyntaxNode {
    /// The grammar's name for the node (`function_declaration`, `comment`, ...).
    pub kind: String,
    /// The field under which the node sits in its parent, if any.
    pub field: Option<String>,
    /// Whether the node is named (not punctuation or a keyword).
    pub named: bool,
    pub start_byte: usize,
    pub end_byte: usize,
    /// The 0-based line on which the node starts.
    pub row: usize,
    /// The index of the parent node.
    pub parent: Option<usize>,
}

/// Well-formedness: parents come before their children, and each subtree is a range of
/// indices that starts at its root.
pub open spec fn tree_wf(nodes: Seq<SyntaxNode>, ends: Seq<usize>) -> bool {
    &&& ends.len() == nodes.len()
    &&& nodes.len() < usize::MAX
    &&& forall|i: int|
        #![trigger nodes[i]]
        #![trigger ends[i]]
        0 <= i < nodes.len() ==> i < ends[i] <= nodes.len() && nodes[i].row < usize::MAX
            && match nodes[i].parent {
            Some(p) => p < i,
            None => true,
        }
}

/// A syntax tree: the nodes in pre-order; the subtree of node `i` is the range of nodes
/// from `i` up to `ends[i]`.
pub struct SyntaxTree {
    nodes: Vec<SyntaxNode>,
    ends: Vec<usize>,
}

impl SyntaxTree {
    #[verifier::type_invariant]
    spec fn well_formed(self) -> bool {
        tree_wf(self.nodes@, self.ends@)
    }

    pub closed spec fn spec_nodes(self) -> Seq<SyntaxNode> {
        self.nodes@
    }

    pub closed spec fn spec_ends(self) -> Seq<usize> {
        self.ends@
    }

    /// A tree from its nodes in pre-order and the end of each subtree; `None` unless
    /// every parent comes before its child and every subtree range starts at its root
    /// and stays within the nodes.
    pub fn from_parts(nodes: Vec<SyntaxNode>, ends: Vec<usize>) -> (r: Option<SyntaxTree>)
        ensures
            r is Some <==> tree_wf(nodes@, ends@),
            r matches Some(t) ==> t.spec_nodes() == nodes@ && t.spec_ends() == ends@,
    {
        if nodes.len() != ends.len() || nodes.len() == usize::MAX {
            return None;
        }
        let mut i: usize = 0;
        while i < nodes.len()
            invariant
                ends@.len() == nodes@.len(),
                nodes@.len() < usize::MAX,
                i <= nodes@.len(),
                forall|k: int|
                    0 <= k < i ==> k < #[trigger] ends@[k] <= nodes@.len() && nodes@[k].row
                        < usize::MAX && match nodes@[k].parent {
                        Some(p) => p < k,
                        None => true,
                    },
            decreases nodes@.len() - i,
        {
            if !(i < ends[i] && ends[i] <= nodes.len() && nodes[i].row < usize::MAX) {
                return None;
            }
            match nodes[i].parent {
                Some(p) => {
                    if p >= i {
                        return None;
                    }
                },
                None => {},
            }
            i = i + 1;
        }
        Some(SyntaxTree { nodes, ends })
    }

    /// The nodes, with the end of each subtree; the pair is well formed.
    pub fn parts(&self) -> (r: (&Vec<SyntaxNode>, &Vec<usize>))
        ensures
            r.0@ == self.spec_nodes(),
            r.1@ == self.spec_ends(),
            tree_wf(r.0@, r.1@),
    {
        proof {
            use_type_invariant(self);
        }
        (&self.nodes, &self.ends)
    }
}

// ---------------------------------------------------------------------------
// Reading the tree.
// ---------------------------------------------------------------------------

/// The text of a node: its bytes of the source, when they start and end on character
/// boundaries.
pub open spec fn node_text(src: Seq<u8>, n: SyntaxNode) -> Option<Seq<char>> {
    if n.start_byte <= n.end_byte <= src.len() && is_char_boundary(src, n.start_byte as int)
        && is_char_boundary(src, n.end_byte as int) {
        Some(decode_utf8(src.subrange(n.start_byte as int, n.end_byte as int)))
    } else {
        None
    }
}

/// The text of node `n` in `source`.
pub fn text_of<'a>(source: &'a str, n: &SyntaxNode) -> (r: Option<&'a str>)
    ensures
        match r {
            Some(t) => node_text(source.spec_bytes(), *n) == Some(t@),
            None => node_text(source.spec_bytes(), *n) is None,
        },
{
    proof {
        vstd::utf8::encode_utf8_valid_utf8(source@);
    }
    let len = source.as_bytes().len();
    if !(n.start_byte <= n.end_byte && n.end_byte <= len) {
        return None;
    }
    if !source.is_char_boundary(n.start_byte) || !source.is_char_boundary(n.end_byte) {
        return None;
    }
    let ghost b = source.spec_bytes();
    let (_, rest) = source.split_at(n.start_byte);
    proof {
        vstd::utf8::valid_utf8_split(b, n.start_byte as int);
        let rb = b.subrange(n.start_byte as int, b.len() as int);
        assert(rest.spec_bytes() =~= rb);
        lemma_boundary_in_rest(b, n.start_byte as int, n.end_byte as int);
    }
    let (t, _) = rest.split_at(n.end_byte - n.start_byte);
    proof {
        assert(t.spec_bytes() =~= b.subrange(n.start_byte as int, n.end_byte as int));
        vstd::utf8::encode_utf8_decode_utf8(t@);
    }
    Some(t)
}

/// A boundary after `start` is a boundary of the bytes from `start` on.
proof fn lemma_boundary_in_rest(b: Seq<u8>, start: int, end: int)
    requires
        valid_utf8(b),
        0 <= start <= end <= b.len(),
        is_char_boundary(b, start),
        is_char_boundary(b, end),
    ensures
        is_char_boundary(b.subrange(start, b.len() as int), end - start),
{
    let rb = b.subrange(start, b.len() as int);
    vstd::utf8::valid_utf8_split(b, start);
    vstd::utf8::is_char_boundary_start_end_of_seq(rb);
    if end < b.len() && end > start {
        vstd::utf8::is_char_boundary_iff_not_is_continuation_byte(b, end);
        vstd::utf8::is_char_boundary_iff_not_is_continuation_byte(rb, end - start);
        assert(rb[end - start] == b[end]);
    }
    if end == start {
        assert(end - start == 0);
    }
    if end == b.len() {
        assert(end - start == rb.len());
    }
}

/// The children of node `i` among the nodes before `j`, in order.
pub open spec fn child_list(nodes: Seq<SyntaxNode>, i: int, j: int) -> Seq<int>
    decreases j - i,
{
    if j <= i + 1 {
        Seq::empty()
    } else {
        child_list(nodes, i, j - 1) + if nodes[j - 1].parent == Some(i as usize) {
            seq![j - 1]
        } else {
            Seq::empty()
        }
    }
}

/// The children of node `i`, in order: the nodes of its subtree whose parent it is.
pub open spec fn children(nodes: Seq<SyntaxNode>, ends: Seq<usize>, i: int) -> Seq<int> {
    child_list(nodes, i, ends[i] as int)
}

pub proof fn lemma_child_list_bounds(nodes: Seq<SyntaxNode>, i: int, j: int)
    ensures
        forall|k: int|
            0 <= k < child_list(nodes, i, j).len() ==> i < #[trigger] child_list(nodes, i, j)[k] < j,
    decreases j - i,
{
    if j > i + 1 {
        lemma_child_list_bounds(nodes, i, j - 1);
        let prev = child_list(nodes, i, j - 1);
        let cur = child_list(nodes, i, j);
        assert forall|k: int| 0 <= k < cur.len() implies i < #[trigger] cur[k] < j by {
            if k < prev.len() {
                assert(cur[k] == prev[k]);
            }
        }
    }
}

/// The children of node `i`, in order.
pub fn children_of(nodes: &Vec<SyntaxNode>, ends: &Vec<usize>, i: usize) -> (r: Vec<usize>)
    requires
        tree_wf(nodes@, ends@),
        i < nodes@.len(),
    ensures
        r@.map_values(|k: usize| k as int) == children(nodes@, ends@, i as int),
        forall|k: int| 0 <= k < r@.len() ==> i < #[trigger] r@[k] < ends@[i as int],
{
    let end = ends[i];
    let mut r: Vec<usize> = Vec::new();
    let mut j = i + 1;
    proof {
        assert(r@.map_values(|k: usize| k as int) =~= child_list(nodes@, i as int, j as int));
    }
    while j < end
        invariant
            tree_wf(nodes@, ends@),
            i < nodes@.len(),
            end == ends@[i as int],
            end <= nodes@.len(),
            i + 1 <= j <= end,
            r@.map_values(|k: usize| k as int) == child_list(nodes@, i as int, j as int),
            forall|k: int| 0 <= k < r@.len() ==> i < #[trigger] r@[k] < j,
        decreases end - j,
    {
        let ghost before = r@;
        if nodes[j].parent == Some(i) {
            r.push(j);
        }
        assert(r@.map_values(|k: usize| k as int) =~= child_list(nodes@, i as int, j + 1));
        j = j + 1;
    }
    r
}

/// The first of `cs` that sits under the field `name`.
pub open spec fn first_in_field(nodes: Seq<SyntaxNode>, cs: Seq<int>, name: Seq<char>) -> Option<int>
    decreases cs.len(),
{
    if cs.len() == 0 {
        None
    } else if (match nodes[cs[0]].field {
        Some(f) => f@ == name,
        None => false,
    }) {
        Some(cs[0])
    } else {
        first_in_field(nodes, cs.drop_first(), name)
    }
}

/// The first child of node `i` under the field `name`.
pub open spec fn field_child(
    nodes: Seq<SyntaxNode>,
    ends: Seq<usize>,
    i: int,
    name: Seq<char>,
) -> Option<int> {
    first_in_field(nodes, children(nodes, ends, i), name)
}

/// The first child of node `i` under the field `name`.
pub fn child_by_field(nodes: &Vec<SyntaxNode>, ends: &Vec<usize>, i: usize, name: &str) -> (r:
    Option<usize>)
    requires
        tree_wf(nodes@, ends@),
        i < nodes@.len(),
    ensures
        match r {
            Some(k) => field_child(nodes@, ends@, i as int, name@) == Some(k as int) && i < k
                < nodes@.len(),
            None => field_child(nodes@, ends@, i as int, name@) is None,
        },
{
    let cs = children_of(nodes, ends, i);
    let ghost cv = cs@.map_values(|k: usize| k as int);
    let key = name.to_owned();
    let mut t: usize = 0;
    proof {
        assert(cv.skip(0) =~= cv);
    }
    while t < cs.len()
        invariant
            tree_wf(nodes@, ends@),
            i < nodes@.len(),
            cv == cs@.map_values(|k: usize| k as int),
            cv == children(nodes@, ends@, i as int),
            forall|k: int| 0 <= k < cs@.len() ==> i < #[trigger] cs@[k] < ends@[i as int],
            key@ == name@,
            t <= cs@.len(),
            first_in_field(nodes@, cv, name@) == first_in_field(nodes@, cv.skip(t as int), name@),
        decreases cs@.len() - t,
    {
        let k = cs[t];
        assert(cv.skip(t as int)[0] == k as int);
        let hit = match &nodes[k].field {
            Some(f) => *f == key,
            None => false,
        };
        if hit {
            return Some(k);
        }
        assert(cv.skip(t as int).drop_first() =~= cv.skip(t + 1));
        t = t + 1;
    }
    None
}

} // verus!
