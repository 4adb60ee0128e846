use vstd::prelude::*;

use crate::ast::rows::{CommentRow, FunctionRow, StructRow, TableBatch};
use crate::source::portable_parent;
use crate::sql::ast::strings_view;
use crate::text::{
    ascii_lower, bytes_lt, chars_vec, compare_bytes, ends_with, has_at,
    lemma_bytes_lt_asymmetric, lemma_bytes_lt_irreflexive, lemma_bytes_lt_total,
    lemma_bytes_lt_transitive, lemma_trim_chars, lemma_trim_idempotent, lowercase_from, push_char,
    push_str, starts_with, string_from, trim, trim_range,
};
use vstd::string::StrSliceExecFns;
use vstd::string::StringSliceAdditionalSpecFns;
use vstd::utf8::encode_utf8;

verus! {

// ---------------------------------------------------------------------------
// Comment attachment: the nearest declaration that follows a comment in its file.
// ---------------------------------------------------------------------------

/// A declaration a comment can document: a function (tag 0) or a struct (tag 1).
pub struct Decl {
    pub file: Seq<char>,
    pub line: usize,
    pub tag: u8,
    pub name: Seq<char>,
}

pub open spec fn function_decl(f: FunctionRow) -> Decl {
    Decl { file: f.file@, line: f.line, tag: 0, name: f.name@ }
}

pub open spec fn struct_decl(s: StructRow) -> Decl {
    Decl { file: s.file@, line: s.line, tag: 1, name: s.name@ }
}

/// The functions, then the structs, as declarations.
pub open spec fn decls(fs: Seq<FunctionRow>, ss: Seq<StructRow>) -> Seq<Decl> {
    fs.map_values(|f: FunctionRow| function_decl(f)) + ss.map_values(
        |s: StructRow| struct_decl(s),
    )
}

/// The declaration is in `file`, on a later line than `line`.
pub open spec fn follows(d: Decl, file: Seq<char>, line: usize) -> bool {
    d.file == file && d.line > line
}

/// Declaration `i` comes before declaration `j`: on an earlier line; on the same line a
/// function comes before a struct; otherwise the earlier row comes first.
pub open spec fn precedes(ds: Seq<Decl>, i: int, j: int) -> bool {
    ||| ds[i].line < ds[j].line
    ||| ds[i].line == ds[j].line && ds[i].tag < ds[j].tag
    ||| ds[i].line == ds[j].line && ds[i].tag == ds[j].tag && i < j
}

/// Declaration `i` follows the comment and comes before every other that does.
pub open spec fn is_nearest(ds: Seq<Decl>, file: Seq<char>, line: usize, i: int) -> bool {
    &&& 0 <= i < ds.len()
    &&& follows(ds[i], file, line)
    &&& forall|j: int|
        0 <= j < ds.len() && j != i && #[trigger] follows(ds[j], file, line) ==> precedes(ds, i, j)
}

/// The name of the nearest declaration after a comment at `line` of `file`, or the empty
/// string when no declaration follows it in that file.
pub open spec fn attachment(ds: Seq<Decl>, file: Seq<char>, line: usize) -> Seq<char> {
    if exists|i: int| is_nearest(ds, file, line, i) {
        ds[choose|i: int| is_nearest(ds, file, line, i)].name
    } else {
        Seq::empty()
    }
}

/// `c` is `old` with only `attached_to` replaced.
pub open spec fn attached(old_row: CommentRow, c: CommentRow, name: Seq<char>) -> bool {
    &&& c.file@ == old_row.file@
    &&& c.line == old_row.line
    &&& c.text@ == old_row.text@
    &&& c.is_doc == old_row.is_doc
    &&& c.attached_to@ == name
}

struct Entry {
    file: String,
    line: usize,
    tag: u8,
    name: String,
}

spec fn entry_decl(e: Entry) -> Decl {
    Decl { file: e.file@, line: e.line, tag: e.tag, name: e.name@ }
}

spec fn entries_decls(es: Seq<Entry>) -> Seq<Decl> {
    es.map_values(|e: Entry| entry_decl(e))
}

spec fn file_bytes(d: Decl) -> Seq<u8> {
    encode_utf8(d.file)
}

/// The sort order of positions: by file bytes, then line, then tag, then position.
spec fn sorts_before(ds: Seq<Decl>, i: int, j: int) -> bool {
    ||| bytes_lt(file_bytes(ds[i]), file_bytes(ds[j]))
    ||| file_bytes(ds[i]) == file_bytes(ds[j]) && precedes(ds, i, j)
}

spec fn valid_positions(ds: Seq<Decl>, v: Seq<usize>) -> bool {
    forall|p: int| 0 <= p < v.len() ==> #[trigger] v[p] < ds.len()
}

spec fn sorted(ds: Seq<Decl>, v: Seq<usize>) -> bool {
    forall|p: int, q: int|
        0 <= p < q < v.len() ==> sorts_before(ds, #[trigger] v[p] as int, #[trigger] v[q] as int)
}

spec fn no_dups(v: Seq<usize>) -> bool {
    forall|p: int, q: int| 0 <= p < q < v.len() ==> #[trigger] v[p] != #[trigger] v[q]
}

proof fn lemma_encode_injective(a: Seq<char>, b: Seq<char>)
    requires
        encode_utf8(a) == encode_utf8(b),
    ensures
        a == b,
{
    vstd::utf8::encode_utf8_decode_utf8(a);
    vstd::utf8::encode_utf8_decode_utf8(b);
}

proof fn lemma_file_bytes_eq(a: Decl, b: Decl)
    requires
        file_bytes(a) == file_bytes(b),
    ensures
        a.file == b.file,
{
    vstd::utf8::encode_utf8_decode_utf8(a.file);
    vstd::utf8::encode_utf8_decode_utf8(b.file);
}

proof fn lemma_sorts_before_transitive(ds: Seq<Decl>, i: int, j: int, k: int)
    requires
        sorts_before(ds, i, j),
        sorts_before(ds, j, k),
    ensures
        sorts_before(ds, i, k),
{
    let (a, b, c) = (file_bytes(ds[i]), file_bytes(ds[j]), file_bytes(ds[k]));
    if bytes_lt(a, b) && bytes_lt(b, c) {
        lemma_bytes_lt_transitive(a, b, c);
    }
}

proof fn lemma_sorts_before_total(ds: Seq<Decl>, i: int, j: int)
    requires
        i != j,
    ensures
        sorts_before(ds, i, j) || sorts_before(ds, j, i),
{
    lemma_bytes_lt_total(file_bytes(ds[i]), file_bytes(ds[j]));
}

proof fn lemma_sorts_before_asymmetric(ds: Seq<Decl>, i: int, j: int)
    requires
        sorts_before(ds, i, j),
    ensures
        !sorts_before(ds, j, i),
{
    let (a, b) = (file_bytes(ds[i]), file_bytes(ds[j]));
    if bytes_lt(a, b) {
        lemma_bytes_lt_asymmetric(a, b);
        if a == b {
            lemma_bytes_lt_irreflexive(a);
        }
    } else {
        lemma_bytes_lt_irreflexive(a);
    }
}

fn entry_before(es: &Vec<Entry>, i: usize, j: usize) -> (r: bool)
    requires
        i < es@.len(),
        j < es@.len(),
    ensures
        r == sorts_before(entries_decls(es@), i as int, j as int),
{
    let ghost ds = entries_decls(es@);
    assert(ds[i as int] == entry_decl(es@[i as int]));
    assert(ds[j as int] == entry_decl(es@[j as int]));
    let a = &es[i];
    let b = &es[j];
    let c = compare_bytes(a.file.as_str().as_bytes(), b.file.as_str().as_bytes());
    proof {
        if c > 0 {
            lemma_bytes_lt_asymmetric(file_bytes(ds[j as int]), file_bytes(ds[i as int]));
            if file_bytes(ds[i as int]) == file_bytes(ds[j as int]) {
                lemma_bytes_lt_irreflexive(file_bytes(ds[i as int]));
            }
        }
        if c == 0 {
            lemma_bytes_lt_irreflexive(file_bytes(ds[i as int]));
        }
    }
    if c != 0 {
        c < 0
    } else if a.line != b.line {
        a.line < b.line
    } else if a.tag != b.tag {
        a.tag < b.tag
    } else {
        i < j
    }
}

proof fn lemma_push_contents(before: Seq<usize>, x: usize, a: Seq<usize>, b: Seq<usize>)
    requires
        forall|y: usize| before.contains(y) <==> (a.contains(y) || b.contains(y)),
    ensures
        forall|y: usize| #[trigger]
            before.push(x).contains(y) <==> (a.push(x).contains(y) || b.contains(y)),
{
    assert forall|y: usize| #[trigger] before.push(x).contains(y) <==> (a.push(x).contains(y)
        || b.contains(y)) by {
        if before.push(x).contains(y) {
            let k = choose|k: int| 0 <= k < before.push(x).len() && before.push(x)[k] == y;
            if k < before.len() {
                assert(before[k] == y);
                assert(before.contains(y));
                if a.contains(y) {
                    let k2 = choose|k2: int| 0 <= k2 < a.len() && a[k2] == y;
                    assert(a.push(x)[k2] == y);
                    assert(a.push(x).contains(y));
                }
            } else {
                assert(a.push(x)[a.len() as int] == y);
                assert(a.push(x).contains(y));
            }
        }
        if a.push(x).contains(y) {
            let k = choose|k: int| 0 <= k < a.push(x).len() && a.push(x)[k] == y;
            if k < a.len() {
                assert(a[k] == y);
                assert(a.contains(y));
                assert(before.contains(y));
                let k3 = choose|k3: int| 0 <= k3 < before.len() && before[k3] == y;
                assert(before.push(x)[k3] == y);
            } else {
                assert(before.push(x)[before.len() as int] == y);
            }
            assert(before.push(x).contains(y));
        }
        if b.contains(y) {
            assert(before.contains(y));
            let k = choose|k: int| 0 <= k < before.len() && before[k] == y;
            assert(before.push(x)[k] == y);
            assert(before.push(x).contains(y));
        }
    }
}

fn merge(es: &Vec<Entry>, l: &Vec<usize>, r: &Vec<usize>) -> (out: Vec<usize>)
    requires
        valid_positions(entries_decls(es@), l@),
        valid_positions(entries_decls(es@), r@),
        sorted(entries_decls(es@), l@),
        sorted(entries_decls(es@), r@),
        forall|p: int, q: int|
            0 <= p < l@.len() && 0 <= q < r@.len() ==> #[trigger] l@[p] != #[trigger] r@[q],
        l@.len() + r@.len() <= usize::MAX,
    ensures
        out@.len() == l@.len() + r@.len(),
        valid_positions(entries_decls(es@), out@),
        sorted(entries_decls(es@), out@),
        forall|x: usize| out@.contains(x) <==> (l@.contains(x) || r@.contains(x)),
{
    let ghost ds = entries_decls(es@);
    let mut out: Vec<usize> = Vec::new();
    let mut i: usize = 0;
    let mut j: usize = 0;
    while i < l.len() || j < r.len()
        invariant
            ds == entries_decls(es@),
            ds.len() == es@.len(),
            valid_positions(ds, l@),
            valid_positions(ds, r@),
            sorted(ds, l@),
            sorted(ds, r@),
            forall|p: int, q: int|
                0 <= p < l@.len() && 0 <= q < r@.len() ==> #[trigger] l@[p] != #[trigger] r@[q],
            l@.len() + r@.len() <= usize::MAX,
            i <= l@.len(),
            j <= r@.len(),
            out@.len() == i + j,
            valid_positions(ds, out@),
            sorted(ds, out@),
            forall|p: int, q: int|
                0 <= p < out@.len() && i <= q < l@.len() ==> sorts_before(
                    ds,
                    #[trigger] out@[p] as int,
                    #[trigger] l@[q] as int,
                ),
            forall|p: int, q: int|
                0 <= p < out@.len() && j <= q < r@.len() ==> sorts_before(
                    ds,
                    #[trigger] out@[p] as int,
                    #[trigger] r@[q] as int,
                ),
            forall|x: usize|
                out@.contains(x) <==> (l@.subrange(0, i as int).contains(x) || r@.subrange(
                    0,
                    j as int,
                ).contains(x)),
        decreases l@.len() + r@.len() - i - j,
    {
        let take_left = if i < l.len() && j < r.len() {
            entry_before(es, l[i], r[j])
        } else {
            i < l.len()
        };
        let ghost before = out@;
        if take_left {
            let x = l[i];
            proof {
                if j < r@.len() {
                    assert(sorts_before(ds, x as int, r@[j as int] as int));
                    assert forall|q: int| j <= q < r@.len() implies sorts_before(
                        ds,
                        x as int,
                        #[trigger] r@[q] as int,
                    ) by {
                        if q > j {
                            lemma_sorts_before_transitive(
                                ds,
                                x as int,
                                r@[j as int] as int,
                                r@[q] as int,
                            );
                        }
                    }
                }
            }
            out.push(x);
            proof {
                assert(l@.subrange(0, i + 1) =~= l@.subrange(0, i as int).push(x));
                lemma_push_contents(before, x, l@.subrange(0, i as int), r@.subrange(0, j as int));
                assert forall|y: usize| #[trigger] out@.contains(y) <==> (l@.subrange(
                    0,
                    i + 1,
                ).contains(y) || r@.subrange(0, j as int).contains(y)) by {
                    assert(before.push(x).contains(y) <==> (l@.subrange(0, i as int).push(
                        x,
                    ).contains(y) || r@.subrange(0, j as int).contains(y)));
                }
            }
            i = i + 1;
        } else {
            let x = r[j];
            proof {
                if i < l@.len() {
                    assert(l@[i as int] != x);
                    lemma_sorts_before_total(ds, l@[i as int] as int, x as int);
                    assert(sorts_before(ds, x as int, l@[i as int] as int));
                    assert forall|q: int| i <= q < l@.len() implies sorts_before(
                        ds,
                        x as int,
                        #[trigger] l@[q] as int,
                    ) by {
                        if q > i {
                            lemma_sorts_before_transitive(
                                ds,
                                x as int,
                                l@[i as int] as int,
                                l@[q] as int,
                            );
                        }
                    }
                }
            }
            out.push(x);
            proof {
                assert(r@.subrange(0, j + 1) =~= r@.subrange(0, j as int).push(x));
                lemma_push_contents(before, x, r@.subrange(0, j as int), l@.subrange(0, i as int));
                assert forall|y: usize| #[trigger] out@.contains(y) <==> (l@.subrange(
                    0,
                    i as int,
                ).contains(y) || r@.subrange(0, j + 1).contains(y)) by {
                    assert(before.push(x).contains(y) <==> (r@.subrange(0, j as int).push(
                        x,
                    ).contains(y) || l@.subrange(0, i as int).contains(y)));
                }
            }
            j = j + 1;
        }
    }
    proof {
        assert(l@.subrange(0, l@.len() as int) =~= l@);
        assert(r@.subrange(0, r@.len() as int) =~= r@);
    }
    out
}


fn sort_positions(es: &Vec<Entry>, v: Vec<usize>) -> (out: Vec<usize>)
    requires
        valid_positions(entries_decls(es@), v@),
        no_dups(v@),
    ensures
        out@.len() == v@.len(),
        valid_positions(entries_decls(es@), out@),
        sorted(entries_decls(es@), out@),
        forall|x: usize| out@.contains(x) <==> v@.contains(x),
    decreases v@.len(),
{
    let ghost ds = entries_decls(es@);
    if v.len() <= 1 {
        return v;
    }
    let mut left = v;
    let ghost whole = left@;
    let mid = left.len() / 2;
    let right = left.split_off(mid);
    assert(left@ =~= whole.subrange(0, mid as int));
    assert(right@ =~= whole.subrange(mid as int, whole.len() as int));
    assert forall|p: int, q: int| 0 <= p < q < left@.len() implies #[trigger] left@[p]
        != #[trigger] left@[q] by {
        assert(left@[p] == whole[p] && left@[q] == whole[q]);
    }
    assert forall|p: int, q: int| 0 <= p < q < right@.len() implies #[trigger] right@[p]
        != #[trigger] right@[q] by {
        assert(right@[p] == whole[p + mid] && right@[q] == whole[q + mid]);
    }
    let sl = sort_positions(es, left);
    let sr = sort_positions(es, right);
    proof {
        assert forall|p: int, q: int| 0 <= p < sl@.len() && 0 <= q < sr@.len() implies #[trigger] sl@[p]
            != #[trigger] sr@[q] by {
            assert(sl@.contains(sl@[p]));
            assert(sr@.contains(sr@[q]));
            let a = choose|a: int| 0 <= a < left@.len() && left@[a] == sl@[p];
            let b = choose|b: int| 0 <= b < right@.len() && right@[b] == sr@[q];
            assert(whole[a] == left@[a]);
            assert(whole[b + mid] == right@[b]);
        }
    }
    let out = merge(es, &sl, &sr);
    proof {
        assert forall|x: usize| out@.contains(x) <==> whole.contains(x) by {
            if whole.contains(x) {
                let k = choose|k: int| 0 <= k < whole.len() && whole[k] == x;
                if k < mid {
                    assert(left@[k] == x);
                    assert(left@.contains(x));
                } else {
                    assert(right@[k - mid] == x);
                    assert(right@.contains(x));
                }
            }
            if left@.contains(x) {
                let k = choose|k: int| 0 <= k < left@.len() && left@[k] == x;
                assert(whole[k] == x);
            }
            if right@.contains(x) {
                let k = choose|k: int| 0 <= k < right@.len() && right@[k] == x;
                assert(whole[k + mid] == x);
            }
        }
    }
    out
}

/// The declaration is in a file that sorts before `file`, or in `file` at or before `line`.
spec fn at_or_before(d: Decl, file: Seq<u8>, line: usize) -> bool {
    ||| bytes_lt(file_bytes(d), file)
    ||| file_bytes(d) == file && d.line <= line
}

proof fn lemma_at_or_before_monotone(ds: Seq<Decl>, i: int, j: int, file: Seq<u8>, line: usize)
    requires
        sorts_before(ds, i, j),
        at_or_before(ds[j], file, line),
    ensures
        at_or_before(ds[i], file, line),
{
    let (a, b) = (file_bytes(ds[i]), file_bytes(ds[j]));
    if bytes_lt(a, b) && bytes_lt(b, file) {
        lemma_bytes_lt_transitive(a, b, file);
    }
}

/// The first sorted position whose declaration is after (`file`, `line`).
fn first_after(es: &Vec<Entry>, order: &Vec<usize>, file: &[u8], line: usize) -> (p: usize)
    requires
        valid_positions(entries_decls(es@), order@),
        sorted(entries_decls(es@), order@),
    ensures
        p <= order@.len(),
        forall|q: int|
            0 <= q < p ==> at_or_before(entries_decls(es@)[#[trigger] order@[q] as int], file@, line),
        forall|q: int|
            p <= q < order@.len() ==> !at_or_before(
                entries_decls(es@)[#[trigger] order@[q] as int],
                file@,
                line,
            ),
{
    let ghost ds = entries_decls(es@);
    let mut lo: usize = 0;
    let mut hi: usize = order.len();
    while lo < hi
        invariant
            ds == entries_decls(es@),
            ds.len() == es@.len(),
            valid_positions(ds, order@),
            sorted(ds, order@),
            lo <= hi <= order@.len(),
            forall|q: int| 0 <= q < lo ==> at_or_before(ds[#[trigger] order@[q] as int], file@, line),
            forall|q: int|
                hi <= q < order@.len() ==> !at_or_before(ds[#[trigger] order@[q] as int], file@, line),
        decreases hi - lo,
    {
        let mid = lo + (hi - lo) / 2;
        let k = order[mid];
        let e = &es[k];
        assert(ds[k as int] == entry_decl(es@[k as int]));
        let c = compare_bytes(e.file.as_str().as_bytes(), file);
        let here = c < 0 || (c == 0 && e.line <= line);
        assert(here == at_or_before(ds[k as int], file@, line));
        if here {
            assert forall|q: int| 0 <= q < mid + 1 implies at_or_before(
                ds[#[trigger] order@[q] as int],
                file@,
                line,
            ) by {
                if q < mid {
                    lemma_at_or_before_monotone(ds, order@[q] as int, k as int, file@, line);
                }
            }
            lo = mid + 1;
        } else {
            assert forall|q: int| mid <= q < order@.len() implies !at_or_before(
                ds[#[trigger] order@[q] as int],
                file@,
                line,
            ) by {
                if q > mid && at_or_before(ds[order@[q] as int], file@, line) {
                    lemma_at_or_before_monotone(ds, k as int, order@[q] as int, file@, line);
                }
            }
            hi = mid;
        }
    }
    lo
}

proof fn lemma_nearest_unique(ds: Seq<Decl>, file: Seq<char>, line: usize, i: int, j: int)
    requires
        is_nearest(ds, file, line, i),
        is_nearest(ds, file, line, j),
    ensures
        i == j,
{
    if i != j {
        assert(follows(ds[j], file, line));
        assert(follows(ds[i], file, line));
        assert(precedes(ds, i, j));
        assert(precedes(ds, j, i));
    }
}

proof fn lemma_attachment_is(ds: Seq<Decl>, file: Seq<char>, line: usize, i: int)
    requires
        is_nearest(ds, file, line, i),
    ensures
        attachment(ds, file, line) == ds[i].name,
{
    let k = choose|k: int| is_nearest(ds, file, line, k);
    lemma_nearest_unique(ds, file, line, i, k);
}

proof fn lemma_precedes_transitive(ds: Seq<Decl>, i: int, j: int, k: int)
    requires
        precedes(ds, i, j),
        precedes(ds, j, k),
    ensures
        precedes(ds, i, k),
{
}

proof fn lemma_precedes_total(ds: Seq<Decl>, i: int, j: int)
    requires
        i != j,
    ensures
        precedes(ds, i, j) || precedes(ds, j, i),
{
}

spec fn nearest_in(ds: Seq<Decl>, file: Seq<char>, line: usize, n: int, i: int) -> bool {
    &&& 0 <= i < n
    &&& follows(ds[i], file, line)
    &&& forall|j: int|
        0 <= j < n && j != i && #[trigger] follows(ds[j], file, line) ==> precedes(ds, i, j)
}

/// Among the first `n` declarations, one that follows the comment comes before every
/// other that does, when any follows it.
#[verifier::spinoff_prover]
proof fn lemma_nearest_in_prefix(ds: Seq<Decl>, file: Seq<char>, line: usize, n: int) -> (i: int)
    requires
        0 < n <= ds.len(),
        exists|i: int| 0 <= i < n && follows(ds[i], file, line),
    ensures
        nearest_in(ds, file, line, n, i),
    decreases n,
{
    let m = n - 1;
    if !(exists|i: int| 0 <= i < m && follows(ds[i], file, line)) {
        assert(follows(ds[m], file, line));
        assert forall|j: int| 0 <= j < n && j != m && #[trigger] follows(ds[j], file, line) implies precedes(
            ds,
            m,
            j,
        ) by {
            assert(0 <= j < m);
        }
        m
    } else {
        let i = lemma_nearest_in_prefix(ds, file, line, m);
        if follows(ds[m], file, line) && precedes(ds, m, i) {
            assert forall|j: int| 0 <= j < n && j != m && #[trigger] follows(ds[j], file, line) implies precedes(
                ds,
                m,
                j,
            ) by {
                if j != i {
                    assert(precedes(ds, i, j));
                    lemma_precedes_transitive(ds, m, i, j);
                }
            }
            m
        } else {
            assert forall|j: int| 0 <= j < n && j != i && #[trigger] follows(ds[j], file, line) implies precedes(
                ds,
                i,
                j,
            ) by {
                if j == m {
                    lemma_precedes_total(ds, i, m);
                } else {
                    assert(nearest_in(ds, file, line, m, i));
                }
            }
            i
        }
    }
}

/// A comment is attached to a declaration of its own file on a later line, with no
/// declaration of that file between them: none on an earlier line, and on the same line
/// no function when it is a struct. With no declaration after it in its file, it is
/// attached to nothing (the empty name).
pub proof fn lemma_attaches_to_nearest_following(ds: Seq<Decl>, file: Seq<char>, line: usize)
    ensures
        (forall|i: int| 0 <= i < ds.len() ==> !#[trigger] follows(ds[i], file, line)) ==> attachment(
            ds,
            file,
            line,
        ) == Seq::<char>::empty(),
        (exists|i: int| 0 <= i < ds.len() && #[trigger] follows(ds[i], file, line)) ==> exists|i: int|
            {
                &&& 0 <= i < ds.len()
                &&& #[trigger] follows(ds[i], file, line)
                &&& ds[i].file == file
                &&& ds[i].line > line
                &&& attachment(ds, file, line) == ds[i].name
                &&& forall|j: int|
                    0 <= j < ds.len() && #[trigger] follows(ds[j], file, line) ==> ds[i].line
                        <= ds[j].line && (ds[j].line == ds[i].line ==> ds[i].tag <= ds[j].tag)
            },
{
    if exists|i: int| 0 <= i < ds.len() && #[trigger] follows(ds[i], file, line) {
        let i = lemma_nearest_in_prefix(ds, file, line, ds.len() as int);
        assert(is_nearest(ds, file, line, i));
        lemma_attachment_is(ds, file, line, i);
    } else {
        assert(!exists|i: int| is_nearest(ds, file, line, i));
    }
}

/// The attachment of a comment at (`file`, `line`), given the sorted positions and the
/// first position after the comment.
proof fn lemma_lookup(
    ds: Seq<Decl>,
    order: Seq<usize>,
    file: Seq<char>,
    line: usize,
    p: int,
)
    requires
        valid_positions(ds, order),
        sorted(ds, order),
        order.len() == ds.len(),
        ds.len() <= usize::MAX,
        forall|k: usize| (k as int) < ds.len() ==> order.contains(k),
        0 <= p <= order.len(),
        forall|q: int| 0 <= q < p ==> at_or_before(ds[#[trigger] order[q] as int], encode_utf8(file), line),
        forall|q: int|
            p <= q < order.len() ==> !at_or_before(ds[#[trigger] order[q] as int], encode_utf8(file), line),
    ensures
        p < order.len() && ds[order[p] as int].file == file ==> attachment(ds, file, line)
            == ds[order[p] as int].name,
        !(p < order.len() && ds[order[p] as int].file == file) ==> attachment(ds, file, line)
            == Seq::<char>::empty(),
{
    let fb = encode_utf8(file);
    if p < order.len() && ds[order[p] as int].file == file {
        let i = order[p] as int;
        assert forall|j: int| 0 <= j < ds.len() && j != i && #[trigger] follows(ds[j], file, line)
            implies precedes(ds, i, j) by {
            assert(order.contains(j as usize));
            let q = choose|q: int| 0 <= q < order.len() && order[q] == j as usize;
            assert(order[q] as int == j);
            lemma_bytes_lt_irreflexive(fb);
            assert(!at_or_before(ds[order[q] as int], fb, line));
            if q < p {
                assert(at_or_before(ds[order[q] as int], fb, line));
            }
            assert(q != p);
            assert(sorts_before(ds, i, j));
        }
        lemma_bytes_lt_irreflexive(fb);
        assert(follows(ds[i], file, line));
        lemma_attachment_is(ds, file, line, i);
    } else {
        assert forall|j: int| !is_nearest(ds, file, line, j) by {
            if is_nearest(ds, file, line, j) {
                assert(order.contains(j as usize));
                let q = choose|q: int| 0 <= q < order.len() && order[q] == j as usize;
                assert(order[q] as int == j);
                lemma_bytes_lt_irreflexive(fb);
                assert(!at_or_before(ds[j], fb, line));
                if q < p {
                    assert(at_or_before(ds[order[q] as int], fb, line));
                }
                assert(p < order.len());
                let e = order[p] as int;
                if q > p {
                    assert(sorts_before(ds, e, j));
                }
                assert(!at_or_before(ds[e], fb, line));
                if bytes_lt(file_bytes(ds[e]), fb) {
                    if q > p {
                        lemma_sorts_before_asymmetric(ds, e, j);
                        if bytes_lt(fb, file_bytes(ds[e])) {
                            lemma_bytes_lt_asymmetric(fb, file_bytes(ds[e]));
                        }
                    }
                }
                lemma_bytes_lt_total(file_bytes(ds[e]), fb);
                if bytes_lt(fb, file_bytes(ds[e])) && q > p {
                    assert(sorts_before(ds, e, j));
                    if bytes_lt(file_bytes(ds[e]), file_bytes(ds[j])) {
                        lemma_bytes_lt_transitive(fb, file_bytes(ds[e]), file_bytes(ds[j]));
                        lemma_bytes_lt_irreflexive(fb);
                    }
                }
                if file_bytes(ds[e]) == fb {
                    lemma_file_bytes_eq(ds[e], ds[j]);
                }
            }
        }
    }
}


fn collect_entries(fs: &Vec<FunctionRow>, ss: &Vec<StructRow>) -> (es: Vec<Entry>)
    ensures
        entries_decls(es@) == decls(fs@, ss@),
{
    let mut es: Vec<Entry> = Vec::new();
    let mut i: usize = 0;
    while i < fs.len()
        invariant
            i <= fs@.len(),
            entries_decls(es@) == fs@.subrange(0, i as int).map_values(
                |f: FunctionRow| function_decl(f),
            ),
        decreases fs@.len() - i,
    {
        let f = &fs[i];
        let e = Entry { file: f.file.clone(), line: f.line, tag: 0, name: f.name.clone() };
        assert(entry_decl(e) == function_decl(fs@[i as int]));
        let ghost before = es@;
        es.push(e);
        assert(entries_decls(es@) =~= entries_decls(before).push(entry_decl(e)));
        assert(entries_decls(es@) =~= fs@.subrange(0, i + 1).map_values(
            |f: FunctionRow| function_decl(f),
        ));
        i = i + 1;
    }
    let ghost first = es@;
    assert(fs@.subrange(0, fs@.len() as int) =~= fs@);
    let mut j: usize = 0;
    while j < ss.len()
        invariant
            j <= ss@.len(),
            entries_decls(first) == fs@.map_values(|f: FunctionRow| function_decl(f)),
            entries_decls(es@) == entries_decls(first) + ss@.subrange(0, j as int).map_values(
                |s: StructRow| struct_decl(s),
            ),
        decreases ss@.len() - j,
    {
        let s = &ss[j];
        let e = Entry { file: s.file.clone(), line: s.line, tag: 1, name: s.name.clone() };
        assert(entry_decl(e) == struct_decl(ss@[j as int]));
        let ghost before = es@;
        es.push(e);
        assert(entries_decls(es@) =~= entries_decls(before).push(entry_decl(e)));
        assert(entries_decls(es@) =~= entries_decls(first) + ss@.subrange(0, j + 1).map_values(
            |s: StructRow| struct_decl(s),
        ));
        j = j + 1;
    }
    assert(ss@.subrange(0, ss@.len() as int) =~= ss@);
    es
}

fn positions(n: usize) -> (v: Vec<usize>)
    ensures
        v@.len() == n,
        forall|p: int| 0 <= p < n ==> #[trigger] v@[p] == p,
{
    let mut v: Vec<usize> = Vec::new();
    let mut k: usize = 0;
    while k < n
        invariant
            k <= n,
            v@.len() == k,
            forall|p: int| 0 <= p < k ==> #[trigger] v@[p] == p,
        decreases n - k,
    {
        v.push(k);
        k = k + 1;
    }
    v
}

/// Sets each comment's `attached_to` to the nearest following function or struct of its
/// file: sorts the declarations once, then binary-searches for each comment.
fn resolve_comment_attachments(batch: &mut TableBatch)
    ensures
        final(batch).current_file == old(batch).current_file,
        final(batch).functions == old(batch).functions,
        final(batch).calls == old(batch).calls,
        final(batch).imports == old(batch).imports,
        final(batch).structs == old(batch).structs,
        final(batch).variables == old(batch).variables,
        final(batch).fingerprints == old(batch).fingerprints,
        final(batch).callsets == old(batch).callsets,
        final(batch).comments@.len() == old(batch).comments@.len(),
        forall|i: int|
            0 <= i < old(batch).comments@.len() ==> attached(
                old(batch).comments@[i],
                #[trigger] final(batch).comments@[i],
                attachment(
                    decls(old(batch).functions@, old(batch).structs@),
                    old(batch).comments@[i].file@,
                    old(batch).comments@[i].line,
                ),
            ),
{
    let ghost ds = decls(batch.functions@, batch.structs@);
    let es = collect_entries(&batch.functions, &batch.structs);
    let n = es.len();
    let all = positions(n);
    assert forall|p: int, q: int| 0 <= p < q < all@.len() implies #[trigger] all@[p]
        != #[trigger] all@[q] by {}
    let order = sort_positions(&es, all);
    proof {
        assert forall|k: usize| (k as int) < ds.len() implies order@.contains(k) by {
            assert(all@[k as int] == k);
            assert(all@.contains(k));
        }
    }
    let mut comments: Vec<CommentRow> = Vec::new();
    let mut i: usize = 0;
    while i < batch.comments.len()
        invariant
            ds == decls(batch.functions@, batch.structs@),
            ds == entries_decls(es@),
            ds.len() == es@.len(),
            ds.len() <= usize::MAX,
            order@.len() == ds.len(),
            valid_positions(ds, order@),
            sorted(ds, order@),
            forall|k: usize| (k as int) < ds.len() ==> order@.contains(k),
            i <= batch.comments@.len(),
            comments@.len() == i,
            forall|k: int|
                0 <= k < i ==> attached(
                    batch.comments@[k],
                    #[trigger] comments@[k],
                    attachment(ds, batch.comments@[k].file@, batch.comments@[k].line),
                ),
        decreases batch.comments@.len() - i,
    {
        let c = &batch.comments[i];
        let cb = c.file.as_str().as_bytes();
        let p = first_after(&es, &order, cb, c.line);
        proof {
            lemma_lookup(ds, order@, c.file@, c.line, p as int);
        }
        let name = if p < order.len() {
            let e = &es[order[p]];
            assert(ds[order@[p as int] as int] == entry_decl(es@[order@[p as int] as int]));
            if compare_bytes(e.file.as_str().as_bytes(), cb) == 0 {
                proof {
                    lemma_encode_injective(ds[order@[p as int] as int].file, c.file@);
                }
                e.name.clone()
            } else {
                String::new()
            }
        } else {
            String::new()
        };
        comments.push(
            CommentRow {
                file: c.file.clone(),
                line: c.line,
                text: c.text.clone(),
                attached_to: name,
                is_doc: c.is_doc,
            },
        );
        i = i + 1;
    }
    batch.comments = comments;
}


// ---------------------------------------------------------------------------
// Tests and the functions they test.
// ---------------------------------------------------------------------------

/// The lowercase name a test function covers: the name without a `test_` prefix, a
/// `_test` suffix or a `Test` prefix (a bare `Test` covers nothing).
pub open spec fn spec_test_key(n: Seq<char>) -> Option<Seq<char>> {
    if starts_with(n, "test_"@) {
        Some(ascii_lower(n.subrange("test_"@.len() as int, n.len() as int)))
    } else if ends_with(n, "_test"@) {
        Some(ascii_lower(n.subrange(0, n.len() - "_test"@.len())))
    } else if starts_with(n, "Test"@) {
        if n.len() == "Test"@.len() {
            None
        } else {
            Some(ascii_lower(n.subrange("Test"@.len() as int, n.len() as int)))
        }
    } else {
        None
    }
}

fn test_key(name: &str) -> (r: Option<String>)
    ensures
        match r {
            Some(k) => spec_test_key(name@) == Some(k@),
            None => spec_test_key(name@) is None,
        },
{
    let v = chars_vec(name);
    let n = v.len();
    assert(v@.subrange(0, n as int) =~= v@);
    if has_at(&v, 0, n, "test_") {
        let k = "test_".unicode_len();
        return Some(lowercase_from(&v, k, n));
    }
    let k = "_test".unicode_len();
    if k <= n && has_at(&v, n - k, n, "_test") {
        return Some(lowercase_from(&v, 0, n - k));
    }
    if has_at(&v, 0, n, "Test") {
        let k = "Test".unicode_len();
        if n == k {
            return None;
        }
        return Some(lowercase_from(&v, k, n));
    }
    None
}

fn function_key(name: &str) -> (r: String)
    ensures
        r@ == ascii_lower(name@),
{
    let v = chars_vec(name);
    assert(v@.subrange(0, v@.len() as int) =~= v@);
    lowercase_from(&v, 0, v.len())
}

/// The directory of a file path, as text: `std::path::Path::parent`, lossily converted
/// to a string, or the empty string when the path has no parent.
///
/// Which part of a path is its parent depends on the platform's path syntax; the
/// contract states the result where every platform finds the same parent
/// (`portable_parent`): the empty path for a lone file name, and the text before the
/// last `/` for a path such as `src/a/lib.rs`.
#[verifier::external_body]
fn package_key(file: &str) -> (r: String)
    ensures
        portable_parent(file@) matches Some(dir) ==> r@ == dir,
{
    match std::path::Path::new(file).parent() {
        Some(parent) => parent.to_string_lossy().into_owned(),
        None => String::new(),
    }
}

/// Each function's package is the parent directory of its file, wherever every platform
/// finds the same parent.
pub open spec fn packages_fit(fs: Seq<FunctionRow>, packages: Seq<Seq<char>>) -> bool {
    forall|i: int|
        0 <= i < fs.len() ==> (portable_parent(#[trigger] fs[i].file@) matches Some(dir)
            ==> packages[i] == dir)
}

/// Some function of the same package is a test of function `i`: its test key is the
/// lowercase name of function `i`.
pub open spec fn tested(fs: Seq<FunctionRow>, packages: Seq<Seq<char>>, i: int) -> bool {
    exists|j: int|
        0 <= j < fs.len() && packages[j] == packages[i] && #[trigger] spec_test_key(fs[j].name@)
            == Some(ascii_lower(fs[i].name@))
}

/// `row` is `old_row` with `has_test` set to `flag`.
pub open spec fn with_has_test(old_row: FunctionRow, row: FunctionRow, flag: bool) -> bool {
    &&& row.file@ == old_row.file@
    &&& row.line == old_row.line
    &&& row.name@ == old_row.name@
    &&& row.visibility@ == old_row.visibility@
    &&& row.param_count == old_row.param_count
    &&& row.return_type@ == old_row.return_type@
    &&& row.complexity == old_row.complexity
    &&& row.has_test == flag
}

/// Each row of `new` is the matching row of `old`, marked tested when it was already
/// marked or a test of its package (`packages[i]` for row `i`) covers it.
pub open spec fn has_tests_marked(
    old_rows: Seq<FunctionRow>,
    new_rows: Seq<FunctionRow>,
    packages: Seq<Seq<char>>,
) -> bool {
    &&& packages.len() == old_rows.len()
    &&& new_rows.len() == old_rows.len()
    &&& forall|i: int|
        0 <= i < old_rows.len() ==> with_has_test(
            old_rows[i],
            #[trigger] new_rows[i],
            old_rows[i].has_test || tested(old_rows, packages, i),
        )
}

/// Marking tested functions never unmarks one, and leaves the rest of each row as it was.
pub proof fn lemma_marks_are_kept(
    old_rows: Seq<FunctionRow>,
    new_rows: Seq<FunctionRow>,
    packages: Seq<Seq<char>>,
)
    requires
        has_tests_marked(old_rows, new_rows, packages),
    ensures
        new_rows.len() == old_rows.len(),
        forall|i: int|
            0 <= i < old_rows.len() ==> (old_rows[i].has_test ==> #[trigger] new_rows[i].has_test)
                && function_decl(new_rows[i]) == function_decl(old_rows[i]),
{
    assert forall|i: int| 0 <= i < old_rows.len() implies (old_rows[i].has_test
        ==> #[trigger] new_rows[i].has_test) && function_decl(new_rows[i]) == function_decl(
        old_rows[i],
    ) by {
        assert(with_has_test(
            old_rows[i],
            new_rows[i],
            old_rows[i].has_test || tested(old_rows, packages, i),
        ));
    }
}

/// Marks every function that a test of its package covers; `packages[i]` is the package
/// of function `i`. A mark already set stays set.
pub fn mark_tested(functions: &mut Vec<FunctionRow>, packages: &Vec<String>)
    requires
        old(functions)@.len() == packages@.len(),
    ensures
        has_tests_marked(old(functions)@, final(functions)@, strings_view(packages@)),
{
    let ghost fs = functions@;
    let ghost pk = strings_view(packages@);
    let n = functions.len();
    // The test functions and the keys they cover.
    let mut owners: Vec<usize> = Vec::new();
    let mut keys: Vec<String> = Vec::new();
    let mut j: usize = 0;
    while j < n
        invariant
            fs == functions@,
            n == fs.len(),
            j <= n,
            owners@.len() == keys@.len(),
            forall|t: int|
                0 <= t < owners@.len() ==> #[trigger] owners@[t] < j && spec_test_key(
                    fs[owners@[t] as int].name@,
                ) == Some(keys@[t]@),
            forall|x: int|
                0 <= x < j && #[trigger] spec_test_key(fs[x].name@) is Some ==> exists|t: int|
                    0 <= t < owners@.len() && owners@[t] == x,
        decreases n - j,
    {
        let ghost old_owners = owners@;
        match test_key(functions[j].name.as_str()) {
            Some(k) => {
                owners.push(j);
                keys.push(k);
                assert(owners@[owners@.len() - 1] == j);
            },
            None => {},
        }
        proof {
            assert forall|x: int| 0 <= x < j + 1 && #[trigger] spec_test_key(fs[x].name@) is Some
                implies exists|t: int| 0 <= t < owners@.len() && owners@[t] == x by {
                if x < j {
                    let t = choose|t: int| 0 <= t < old_owners.len() && old_owners[t] == x;
                    assert(owners@[t] == x);
                } else {
                    assert(owners@[owners@.len() - 1] == x);
                }
            }
        }
        j = j + 1;
    }
    let mut out: Vec<FunctionRow> = Vec::new();
    let mut i: usize = 0;
    while i < n
        invariant
            fs == functions@,
            pk == strings_view(packages@),
            pk.len() == n,
            n == fs.len(),
            i <= n,
            owners@.len() == keys@.len(),
            forall|t: int|
                0 <= t < owners@.len() ==> #[trigger] owners@[t] < n && spec_test_key(
                    fs[owners@[t] as int].name@,
                ) == Some(keys@[t]@),
            forall|x: int|
                0 <= x < n && #[trigger] spec_test_key(fs[x].name@) is Some ==> exists|t: int|
                    0 <= t < owners@.len() && owners@[t] == x,
            out@.len() == i,
            forall|k: int|
                0 <= k < i ==> with_has_test(
                    fs[k],
                    #[trigger] out@[k],
                    fs[k].has_test || tested(fs, pk, k),
                ),
        decreases n - i,
    {
        let f = &functions[i];
        let key = function_key(f.name.as_str());
        let mut found = false;
        let mut t: usize = 0;
        while t < owners.len()
            invariant
                fs == functions@,
                pk == strings_view(packages@),
                pk.len() == n,
                n == fs.len(),
                i < n,
                owners@.len() == keys@.len(),
                forall|t2: int|
                    0 <= t2 < owners@.len() ==> #[trigger] owners@[t2] < n && spec_test_key(
                        fs[owners@[t2] as int].name@,
                    ) == Some(keys@[t2]@),
                key@ == ascii_lower(fs[i as int].name@),
                t <= owners@.len(),
                found ==> tested(fs, pk, i as int),
                !found ==> forall|t2: int|
                    0 <= t2 < t ==> !(pk[#[trigger] owners@[t2] as int] == pk[i as int] && keys@[t2]@
                        == key@),
            decreases owners@.len() - t,
        {
            let o = owners[t];
            if keys[t] == key && packages[o] == packages[i] {
                assert(pk[o as int] == packages@[o as int]@);
                assert(pk[i as int] == packages@[i as int]@);
                assert(spec_test_key(fs[o as int].name@) == Some(ascii_lower(fs[i as int].name@)));
                found = true;
            } else {
                assert(pk[o as int] == packages@[o as int]@);
                assert(pk[i as int] == packages@[i as int]@);
            }
            t = t + 1;
        }
        proof {
            if !found && tested(fs, pk, i as int) {
                let x = choose|x: int|
                    0 <= x < fs.len() && pk[x] == pk[i as int] && #[trigger] spec_test_key(
                        fs[x].name@,
                    ) == Some(ascii_lower(fs[i as int].name@));
                let t2 = choose|t2: int| 0 <= t2 < owners@.len() && owners@[t2] == x;
                assert(keys@[t2]@ == key@);
                assert(false);
            }
        }
        out.push(
            FunctionRow {
                file: f.file.clone(),
                line: f.line,
                name: f.name.clone(),
                visibility: f.visibility.clone(),
                param_count: f.param_count,
                return_type: f.return_type.clone(),
                complexity: f.complexity,
                has_test: f.has_test || found,
            },
        );
        i = i + 1;
    }
    *functions = out;
}

/// Computes each function's package, then marks the tested functions.
fn resolve_has_test(functions: &mut Vec<FunctionRow>)
    ensures
        exists|packages: Seq<Seq<char>>|
            has_tests_marked(old(functions)@, final(functions)@, packages) && packages_fit(
                old(functions)@,
                packages,
            ),
{
    let mut packages: Vec<String> = Vec::new();
    let mut i: usize = 0;
    while i < functions.len()
        invariant
            i <= functions@.len(),
            packages@.len() == i,
            forall|k: int|
                0 <= k < i ==> (portable_parent(#[trigger] functions@[k].file@) matches Some(dir)
                    ==> packages@[k]@ == dir),
        decreases functions@.len() - i,
    {
        packages.push(package_key(functions[i].file.as_str()));
        i = i + 1;
    }
    let ghost old_rows = functions@;
    mark_tested(functions, &packages);
    assert(has_tests_marked(old_rows, functions@, strings_view(packages@)));
    assert(packages_fit(old_rows, strings_view(packages@)));
}

// ---------------------------------------------------------------------------
// Comma-separated lists.
// ---------------------------------------------------------------------------

/// The pieces of `s` between commas (always at least one).
pub open spec fn split_commas(s: Seq<char>) -> Seq<Seq<char>>
    decreases s.len(),
{
    if s.len() == 0 {
        seq![Seq::empty()]
    } else {
        let p = split_commas(s.drop_last());
        if s.last() == ',' {
            p.push(Seq::empty())
        } else {
            p.update(p.len() - 1, p.last().push(s.last()))
        }
    }
}

/// `kept` with the trimmed `piece` added, unless it is empty or already kept.
pub open spec fn keep_item(kept: Seq<Seq<char>>, piece: Seq<char>) -> Seq<Seq<char>> {
    let item = trim(piece);
    if item.len() == 0 || kept.contains(item) {
        kept
    } else {
        kept.push(item)
    }
}

/// The trimmed, non-empty pieces, each kept at its first occurrence.
pub open spec fn csv_items(pieces: Seq<Seq<char>>) -> Seq<Seq<char>>
    decreases pieces.len(),
{
    if pieces.len() == 0 {
        Seq::empty()
    } else {
        keep_item(csv_items(pieces.drop_last()), pieces.last())
    }
}

/// Items joined by commas.
pub open spec fn join_commas(v: Seq<Seq<char>>) -> Seq<char>
    decreases v.len(),
{
    if v.len() == 0 {
        Seq::empty()
    } else if v.len() == 1 {
        v[0]
    } else {
        join_commas(v.drop_last()) + seq![','] + v.last()
    }
}

/// A comma-separated list with each item trimmed, empty items dropped and repeated items
/// kept once, at their first place.
pub open spec fn normalized_list(s: Seq<char>) -> Seq<char> {
    join_commas(csv_items(split_commas(s)))
}

proof fn lemma_split_commas_len(s: Seq<char>)
    ensures
        split_commas(s).len() >= 1,
    decreases s.len(),
{
    if s.len() > 0 {
        lemma_split_commas_len(s.drop_last());
    }
}

/// Items a normalized list is made of: none empty, none with surrounding whitespace or a
/// comma, none twice.
pub open spec fn clean_items(v: Seq<Seq<char>>) -> bool {
    &&& forall|k: int|
        0 <= k < v.len() ==> (#[trigger] v[k]).len() > 0 && trim(v[k]) == v[k] && !v[k].contains(
            ',',
        )
    &&& forall|p: int, q: int| 0 <= p < q < v.len() ==> #[trigger] v[p] != #[trigger] v[q]
}

spec fn comma_free(v: Seq<Seq<char>>) -> bool {
    forall|k: int| 0 <= k < v.len() ==> !(#[trigger] v[k]).contains(',')
}

proof fn lemma_split_comma_free(s: Seq<char>)
    ensures
        comma_free(split_commas(s)),
    decreases s.len(),
{
    if s.len() > 0 {
        lemma_split_comma_free(s.drop_last());
        lemma_split_commas_len(s.drop_last());
        let p = split_commas(s.drop_last());
        if s.last() != ',' {
            let q = p.update(p.len() - 1, p.last().push(s.last()));
            assert forall|k: int| 0 <= k < q.len() implies !(#[trigger] q[k]).contains(',') by {
                if k == p.len() - 1 {
                    if q[k].contains(',') {
                        let m = choose|m: int| 0 <= m < q[k].len() && q[k][m] == ',';
                        if m < p.last().len() {
                            assert(p[k][m] == ',');
                            assert(p[k].contains(','));
                        }
                    }
                } else {
                    assert(q[k] == p[k]);
                }
            }
        } else {
            let q = p.push(Seq::<char>::empty());
            assert forall|k: int| 0 <= k < q.len() implies !(#[trigger] q[k]).contains(',') by {
                if k < p.len() {
                    assert(q[k] == p[k]);
                }
            }
        }
    }
}

proof fn lemma_csv_items_clean(pieces: Seq<Seq<char>>)
    requires
        comma_free(pieces),
    ensures
        clean_items(csv_items(pieces)),
    decreases pieces.len(),
{
    if pieces.len() > 0 {
        let rest = pieces.drop_last();
        assert(comma_free(rest)) by {
            assert forall|k: int| 0 <= k < rest.len() implies !(#[trigger] rest[k]).contains(',') by {
                assert(rest[k] == pieces[k]);
            }
        }
        lemma_csv_items_clean(rest);
        let kept = csv_items(rest);
        let item = trim(pieces.last());
        if !(item.len() == 0 || kept.contains(item)) {
            let out = kept.push(item);
            lemma_trim_idempotent(pieces.last());
            lemma_trim_chars(pieces.last());
            assert(!pieces[pieces.len() - 1].contains(','));
            assert forall|k: int| 0 <= k < out.len() implies (#[trigger] out[k]).len() > 0 && trim(
                out[k],
            ) == out[k] && !out[k].contains(',') by {
                if k < kept.len() {
                    assert(out[k] == kept[k]);
                }
            }
            assert forall|p: int, q: int| 0 <= p < q < out.len() implies #[trigger] out[p]
                != #[trigger] out[q] by {
                assert(out[p] == kept[p]);
                if q < kept.len() {
                    assert(out[q] == kept[q]);
                } else if out[p] == out[q] {
                    assert(kept.contains(item));
                }
            }
        }
    }
}

/// Splitting `p + b` where `b` holds no comma extends the last piece of `p` by `b`.
proof fn lemma_split_extend(p: Seq<char>, b: Seq<char>)
    requires
        !b.contains(','),
    ensures
        split_commas(p + b) == split_commas(p).update(
            split_commas(p).len() - 1,
            split_commas(p).last() + b,
        ),
    decreases b.len(),
{
    lemma_split_commas_len(p);
    let q = split_commas(p);
    if b.len() == 0 {
        assert(p + b =~= p);
        assert(q.last() + b =~= q.last());
        assert(q.update(q.len() - 1, q.last()) =~= q);
    } else {
        let b0 = b.drop_last();
        assert(!b0.contains(',')) by {
            if b0.contains(',') {
                let m = choose|m: int| 0 <= m < b0.len() && b0[m] == ',';
                assert(b[m] == ',');
            }
        }
        lemma_split_extend(p, b0);
        assert((p + b).drop_last() =~= p + b0);
        assert((p + b).last() == b.last());
        assert(b[b.len() - 1] != ',');
        let r = split_commas(p + b0);
        assert(r.len() == q.len());
        assert(r.last() == q.last() + b0);
        assert((q.last() + b0).push(b.last()) =~= q.last() + b);
        assert(r.update(r.len() - 1, r.last().push(b.last())) =~= q.update(
            q.len() - 1,
            q.last() + b,
        ));
    }
}

/// Splitting the comma-joined items gives the items back when there is at least one and
/// none holds a comma.
proof fn lemma_split_join(items: Seq<Seq<char>>)
    requires
        items.len() > 0,
        comma_free(items),
    ensures
        split_commas(join_commas(items)) == items,
    decreases items.len(),
{
    let e = Seq::<char>::empty();
    if items.len() == 1 {
        lemma_split_extend(e, items[0]);
        assert(e + items[0] =~= items[0]);
        assert(split_commas(e) == seq![e]);
        assert(e + items[0] =~= items[0]);
        assert(seq![e].update(0, e + items[0]) =~= items);
    } else {
        let rest = items.drop_last();
        assert(comma_free(rest)) by {
            assert forall|k: int| 0 <= k < rest.len() implies !(#[trigger] rest[k]).contains(',') by {
                assert(rest[k] == items[k]);
            }
        }
        lemma_split_join(rest);
        let p = join_commas(rest) + seq![','];
        assert(p.drop_last() =~= join_commas(rest));
        assert(split_commas(p) == rest.push(e));
        assert(!items[items.len() - 1].contains(','));
        lemma_split_extend(p, items.last());
        assert(e + items.last() =~= items.last());
        assert(rest.push(e).update(rest.len() as int, e + items.last()) =~= items);
    }
}

/// Clean items are their own normalization.
proof fn lemma_csv_items_of_clean(items: Seq<Seq<char>>)
    requires
        clean_items(items),
    ensures
        csv_items(items) == items,
    decreases items.len(),
{
    if items.len() > 0 {
        let rest = items.drop_last();
        assert(clean_items(rest)) by {
            assert forall|k: int| 0 <= k < rest.len() implies (#[trigger] rest[k]).len() > 0
                && trim(rest[k]) == rest[k] && !rest[k].contains(',') by {
                assert(rest[k] == items[k]);
            }
            assert forall|p: int, q: int| 0 <= p < q < rest.len() implies #[trigger] rest[p]
                != #[trigger] rest[q] by {
                assert(rest[p] == items[p]);
                assert(rest[q] == items[q]);
            }
        }
        lemma_csv_items_of_clean(rest);
        let last = items[items.len() - 1];
        assert(trim(last) == last);
        assert(!rest.contains(last)) by {
            if rest.contains(last) {
                let k = choose|k: int| 0 <= k < rest.len() && rest[k] == last;
                assert(items[k] == items[items.len() - 1]);
            }
        }
        assert(rest.push(last) =~= items);
    }
}

/// A normalized list is the comma-join of clean items: each trimmed, none empty, none
/// holding a comma, none repeated.
pub proof fn lemma_normalized_list_items(s: Seq<char>)
    ensures
        clean_items(csv_items(split_commas(s))),
        normalized_list(s) == join_commas(csv_items(split_commas(s))),
{
    lemma_split_comma_free(s);
    lemma_csv_items_clean(split_commas(s));
}

/// Normalizing a comma-separated list twice gives what normalizing it once gives.
pub proof fn lemma_normalized_list_idempotent(s: Seq<char>)
    ensures
        normalized_list(normalized_list(s)) == normalized_list(s),
{
    let items = csv_items(split_commas(s));
    lemma_normalized_list_items(s);
    if items.len() == 0 {
        let e = Seq::<char>::empty();
        assert(normalized_list(s) == e);
        assert(split_commas(e) == seq![e]);
        let one = seq![e];
        assert(one.drop_last() =~= Seq::<Seq<char>>::empty());
        assert(one.last() == e);
        assert(csv_items(Seq::<Seq<char>>::empty()) == Seq::<Seq<char>>::empty());
        assert(trim(e) =~= e);
        assert(csv_items(one) == keep_item(csv_items(one.drop_last()), one.last()));
    } else {
        assert(comma_free(items));
        lemma_split_join(items);
        lemma_csv_items_of_clean(items);
    }
}

fn add_item(items: &mut Vec<String>, v: &Vec<char>, lo: usize, hi: usize)
    requires
        lo <= hi <= v@.len(),
    ensures
        strings_view(final(items)@) == keep_item(
            strings_view(old(items)@),
            v@.subrange(lo as int, hi as int),
        ),
{
    let ghost kept = strings_view(items@);
    let (a, b) = trim_range(v, lo, hi);
    if a == b {
        return;
    }
    let item = string_from(v, a, b);
    let mut k: usize = 0;
    while k < items.len()
        invariant
            kept == strings_view(items@),
            kept.len() == items@.len(),
            item@ == trim(v@.subrange(lo as int, hi as int)),
            k <= items@.len(),
            forall|x: int| 0 <= x < k ==> kept[x] != item@,
        decreases items@.len() - k,
    {
        if items[k] == item {
            assert(kept[k as int] == item@);
            assert(kept.contains(item@));
            return;
        }
        k = k + 1;
    }
    assert(!kept.contains(item@));
    items.push(item);
    assert(strings_view(items@) =~= kept.push(item@));
}

pub(crate) fn join_items(items: &Vec<String>) -> (r: String)
    ensures
        r@ == join_commas(strings_view(items@)),
{
    let ghost v = strings_view(items@);
    let mut r = String::new();
    let mut i: usize = 0;
    while i < items.len()
        invariant
            v == strings_view(items@),
            v.len() == items@.len(),
            i <= items@.len(),
            r@ == join_commas(v.subrange(0, i as int)),
        decreases items@.len() - i,
    {
        proof {
            assert(v.subrange(0, i + 1).drop_last() =~= v.subrange(0, i as int));
            assert(v.subrange(0, i + 1).last() == v[i as int]);
            assert(v.subrange(0, i + 1)[0] == v[0]);
        }
        if i > 0 {
            push_char(&mut r, ',');
        }
        push_str(&mut r, items[i].as_str());
        assert(r@ =~= join_commas(v.subrange(0, i + 1)));
        i = i + 1;
    }
    assert(v.subrange(0, v.len() as int) =~= v);
    r
}

/// Trims each comma-separated item, drops empty ones and keeps each item once.
pub fn normalize_csv_list(value: &str) -> (r: String)
    ensures
        r@ == normalized_list(value@),
{
    let v = chars_vec(value);
    let n = v.len();
    let mut items: Vec<String> = Vec::new();
    let mut start: usize = 0;
    let mut i: usize = 0;
    let ghost mut done: Seq<Seq<char>> = Seq::empty();
    proof {
        assert(v@.subrange(0, 0) =~= Seq::<char>::empty());
        assert(split_commas(v@.subrange(0, 0)) =~= done + seq![v@.subrange(0, 0)]);
    }
    while i < n
        invariant
            n == v@.len(),
            start <= i <= n,
            split_commas(v@.subrange(0, i as int)) == done + seq![v@.subrange(start as int, i as int)],
            strings_view(items@) == csv_items(done),
        decreases n - i,
    {
        proof {
            assert(v@.subrange(0, i + 1).drop_last() =~= v@.subrange(0, i as int));
            assert(v@.subrange(0, i + 1).last() == v@[i as int]);
        }
        if v[i] == ',' {
            add_item(&mut items, &v, start, i);
            proof {
                let piece = v@.subrange(start as int, i as int);
                assert(split_commas(v@.subrange(0, i + 1)) == split_commas(
                    v@.subrange(0, i as int),
                ).push(Seq::empty()));
                assert(v@.subrange(i + 1, i + 1) =~= Seq::<char>::empty());
                assert((done.push(piece)).drop_last() =~= done);
                assert(split_commas(v@.subrange(0, i + 1)) =~= done.push(piece) + seq![
                    v@.subrange(i + 1, i + 1),
                ]);
                done = done.push(piece);
            }
            start = i + 1;
        } else {
            proof {
                let p = split_commas(v@.subrange(0, i as int));
                assert(p.last() == v@.subrange(start as int, i as int));
                assert(split_commas(v@.subrange(0, i + 1)) == p.update(
                    p.len() - 1,
                    p.last().push(v@[i as int]),
                ));
                assert(p.last().push(v@[i as int]) =~= v@.subrange(start as int, i + 1));
                assert(split_commas(v@.subrange(0, i + 1)) =~= done + seq![
                    v@.subrange(start as int, i + 1),
                ]);
            }
        }
        i = i + 1;
    }
    add_item(&mut items, &v, start, n);
    proof {
        let piece = v@.subrange(start as int, n as int);
        assert(v@.subrange(0, n as int) =~= v@);
        assert((done.push(piece)).drop_last() =~= done);
        assert(split_commas(value@) =~= done.push(piece));
    }
    join_items(&items)
}


/// `row` is `old_row` with `implements` replaced by `list`.
pub open spec fn with_implements(old_row: StructRow, row: StructRow, list: Seq<char>) -> bool {
    &&& row.file@ == old_row.file@
    &&& row.line == old_row.line
    &&& row.name@ == old_row.name@
    &&& row.field_count == old_row.field_count
    &&& row.visibility@ == old_row.visibility@
    &&& row.implements@ == list
}

fn resolve_implements(structs: &mut Vec<StructRow>)
    ensures
        final(structs)@.len() == old(structs)@.len(),
        forall|i: int|
            0 <= i < old(structs)@.len() ==> with_implements(
                old(structs)@[i],
                #[trigger] final(structs)@[i],
                normalized_list(old(structs)@[i].implements@),
            ),
{
    let mut out: Vec<StructRow> = Vec::new();
    let mut i: usize = 0;
    while i < structs.len()
        invariant
            i <= structs@.len(),
            out@.len() == i,
            forall|k: int|
                0 <= k < i ==> with_implements(
                    structs@[k],
                    #[trigger] out@[k],
                    normalized_list(structs@[k].implements@),
                ),
        decreases structs@.len() - i,
    {
        let s = &structs[i];
        out.push(
            StructRow {
                file: s.file.clone(),
                line: s.line,
                name: s.name.clone(),
                field_count: s.field_count,
                visibility: s.visibility.clone(),
                implements: normalize_csv_list(s.implements.as_str()),
            },
        );
        i = i + 1;
    }
    *structs = out;
}

/// Each struct of `new` is the one of `old` with its `implements` list normalized.
pub open spec fn structs_normalized(old_rows: Seq<StructRow>, new_rows: Seq<StructRow>) -> bool {
    &&& new_rows.len() == old_rows.len()
    &&& forall|i: int|
        0 <= i < old_rows.len() ==> with_implements(
            old_rows[i],
            #[trigger] new_rows[i],
            normalized_list(old_rows[i].implements@),
        )
}

/// Each comment of `new` is the one of `old` attached to the nearest declaration of `ds`
/// that follows it in its file.
pub open spec fn comments_attached(
    old_rows: Seq<CommentRow>,
    new_rows: Seq<CommentRow>,
    ds: Seq<Decl>,
) -> bool {
    &&& new_rows.len() == old_rows.len()
    &&& forall|i: int|
        0 <= i < old_rows.len() ==> attached(
            old_rows[i],
            #[trigger] new_rows[i],
            attachment(ds, old_rows[i].file@, old_rows[i].line),
        )
}

/// A second pass over its own output marks no more functions as tested, when every
/// function's file has a parent directory that every platform agrees on: each function
/// keeps its file and name, so it keeps its package, and a mark the first pass could set
/// was set then.
pub proof fn lemma_second_pass_settles_marks(
    f0: Seq<FunctionRow>,
    f1: Seq<FunctionRow>,
    f2: Seq<FunctionRow>,
)
    requires
        exists|packages: Seq<Seq<char>>|
            has_tests_marked(f0, f1, packages) && packages_fit(f0, packages),
        exists|packages: Seq<Seq<char>>|
            has_tests_marked(f1, f2, packages) && packages_fit(f1, packages),
        forall|i: int| 0 <= i < f0.len() ==> (portable_parent(#[trigger] f0[i].file@) is Some),
    ensures
        f2.len() == f1.len(),
        forall|i: int| 0 <= i < f1.len() ==> with_has_test(f1[i], #[trigger] f2[i], f1[i].has_test),
{
    let p0 = choose|packages: Seq<Seq<char>>|
        has_tests_marked(f0, f1, packages) && packages_fit(f0, packages);
    let p1 = choose|packages: Seq<Seq<char>>|
        has_tests_marked(f1, f2, packages) && packages_fit(f1, packages);
    assert forall|i: int| 0 <= i < f0.len() implies p1[i] == p0[i] && f1[i].name@ == f0[i].name@ by {
        assert(with_has_test(f0[i], f1[i], f0[i].has_test || tested(f0, p0, i)));
        assert(portable_parent(f0[i].file@) is Some);
        assert(portable_parent(f1[i].file@) is Some);
    }
    assert forall|i: int| 0 <= i < f1.len() implies with_has_test(
        f1[i],
        #[trigger] f2[i],
        f1[i].has_test,
    ) by {
        assert(with_has_test(f0[i], f1[i], f0[i].has_test || tested(f0, p0, i)));
        assert(with_has_test(f1[i], f2[i], f1[i].has_test || tested(f1, p1, i)));
        if tested(f1, p1, i) {
            let j = choose|j: int|
                0 <= j < f1.len() && p1[j] == p1[i] && #[trigger] spec_test_key(f1[j].name@)
                    == Some(ascii_lower(f1[i].name@));
            assert(p1[j] == p0[j] && f1[j].name@ == f0[j].name@);
            assert(spec_test_key(f0[j].name@) == Some(ascii_lower(f0[i].name@)));
            assert(tested(f0, p0, i));
        }
    }
}

/// A second pass over its own output changes no `implements` list and no attachment:
/// the functions and structs keep the positions and names that attachment reads, and a
/// normalized list is its own normalization.
pub proof fn lemma_second_pass_settles(
    f0: Seq<FunctionRow>,
    s0: Seq<StructRow>,
    c0: Seq<CommentRow>,
    f1: Seq<FunctionRow>,
    s1: Seq<StructRow>,
    c1: Seq<CommentRow>,
    s2: Seq<StructRow>,
    c2: Seq<CommentRow>,
)
    requires
        exists|packages: Seq<Seq<char>>| has_tests_marked(f0, f1, packages),
        structs_normalized(s0, s1),
        comments_attached(c0, c1, decls(f0, s0)),
        structs_normalized(s1, s2),
        comments_attached(c1, c2, decls(f1, s1)),
    ensures
        s2.len() == s1.len(),
        forall|i: int| 0 <= i < s1.len() ==> struct_decl(#[trigger] s2[i]) == struct_decl(s1[i])
            && s2[i].implements@ == s1[i].implements@,
        c2.len() == c1.len(),
        forall|i: int| 0 <= i < c1.len() ==> attached(c1[i], #[trigger] c2[i], c1[i].attached_to@),
{
    let packages = choose|packages: Seq<Seq<char>>| has_tests_marked(f0, f1, packages);
    lemma_marks_are_kept(f0, f1, packages);
    assert forall|i: int| 0 <= i < s1.len() implies struct_decl(#[trigger] s2[i]) == struct_decl(
        s1[i],
    ) && s2[i].implements@ == s1[i].implements@ by {
        assert(with_implements(s0[i], s1[i], normalized_list(s0[i].implements@)));
        assert(with_implements(s1[i], s2[i], normalized_list(s1[i].implements@)));
        lemma_normalized_list_idempotent(s0[i].implements@);
    }
    assert forall|i: int| 0 <= i < s0.len() implies struct_decl(#[trigger] s1[i]) == struct_decl(
        s0[i],
    ) by {
        assert(with_implements(s0[i], s1[i], normalized_list(s0[i].implements@)));
    }
    assert(decls(f1, s1) =~= decls(f0, s0));
    assert forall|i: int| 0 <= i < c1.len() implies attached(
        c1[i],
        #[trigger] c2[i],
        c1[i].attached_to@,
    ) by {
        assert(attached(c0[i], c1[i], attachment(decls(f0, s0), c0[i].file@, c0[i].line)));
        assert(attached(c1[i], c2[i], attachment(decls(f1, s1), c1[i].file@, c1[i].line)));
    }
}

/// The cross-row facts: which functions are tested, normalized `implements` lists, and
/// the declaration each comment documents.
pub fn second_pass(batch: &mut TableBatch)
    ensures
        final(batch).current_file == old(batch).current_file,
        final(batch).calls == old(batch).calls,
        final(batch).imports == old(batch).imports,
        final(batch).variables == old(batch).variables,
        final(batch).fingerprints == old(batch).fingerprints,
        final(batch).callsets == old(batch).callsets,
        exists|packages: Seq<Seq<char>>|
            has_tests_marked(old(batch).functions@, final(batch).functions@, packages)
                && packages_fit(old(batch).functions@, packages),
        structs_normalized(old(batch).structs@, final(batch).structs@),
        comments_attached(
            old(batch).comments@,
            final(batch).comments@,
            decls(old(batch).functions@, old(batch).structs@),
        ),
{
    let ghost before = decls(batch.functions@, batch.structs@);
    let ghost old_functions = batch.functions@;
    let ghost old_structs = batch.structs@;
    resolve_has_test(&mut batch.functions);
    resolve_implements(&mut batch.structs);
    proof {
        let packages = choose|packages: Seq<Seq<char>>|
            has_tests_marked(old_functions, batch.functions@, packages);
        assert forall|i: int| 0 <= i < old_functions.len() implies function_decl(
            #[trigger] batch.functions@[i],
        ) == function_decl(old_functions[i]) by {
            assert(with_has_test(
                old_functions[i],
                batch.functions@[i],
                old_functions[i].has_test || tested(old_functions, packages, i),
            ));
        }
        assert(decls(batch.functions@, batch.structs@) =~= before);
    }
    resolve_comment_attachments(batch);
}

} // verus!
