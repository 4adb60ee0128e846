use vstd::prelude::*;

use crate::sql::ast::{opt_str_view, strings_view};
use crate::text::{
    decimal, pad_left, push_decimal, push_padded_decimal, push_repeat, push_str,
    repeat_char,
};
use vstd::string::StringSliceAdditionalSpecFns;
use vstd::utf8::{
    decode_utf8, encode_scalar, encode_utf8, is_char_boundary, length_of_first_scalar, pop_first_scalar,
    valid_utf8,
};

verus! {

#[derive(Debug, Clone, PartialEq, Eq)]
pub struct SourceFile {
    pub name: String,
    pub content: String,
    pub line_starts: Vec<usize>,
}

#[derive(Debug, Clone, Copy, PartialEq, Eq, Structural)]
pub struct Span {
    pub file_id: usize,
    pub start: usize,
    pub end: usize,
}

#[derive(Debug, Clone, Copy, PartialEq, Eq, Structural)]
pub enum Severity {
    Error,
    Warning,
    Note,
    Help,
}

#[derive(Debug, Clone, PartialEq, Eq)]
pub struct Label {
    pub span: Span,
    pub message: String,
}

#[derive(Debug, Clone, PartialEq, Eq)]
pub struct Diagnostic {
    pub severity: Severity,
    pub code: Option<String>,
    pub message: String,
    pub labels: Vec<Label>,
    pub notes: Vec<String>,
}

pub struct SpecLabel {
    pub span: Span,
    pub message: Seq<char>,
}

pub struct SpecDiagnostic {
    pub severity: Severity,
    pub code: Option<Seq<char>>,
    pub message: Seq<char>,
    pub labels: Seq<SpecLabel>,
    pub notes: Seq<Seq<char>>,
}

impl View for Label {
    type V = SpecLabel;

    open spec fn view(&self) -> SpecLabel {
        SpecLabel { span: self.span, message: self.message@ }
    }
}

pub open spec fn labels_view(v: Seq<Label>) -> Seq<SpecLabel> {
    v.map_values(|l: Label| l@)
}

impl View for Diagnostic {
    type V = SpecDiagnostic;

    open spec fn view(&self) -> SpecDiagnostic {
        SpecDiagnostic {
            severity: self.severity,
            code: opt_str_view(self.code),
            message: self.message@,
            labels: labels_view(self.labels@),
            notes: strings_view(self.notes@),
        }
    }
}

pub open spec fn diagnostics_view(v: Seq<Diagnostic>) -> Seq<SpecDiagnostic> {
    v.map_values(|d: Diagnostic| d@)
}


impl Span {
    pub fn new(file_id: usize, start: usize, end: usize) -> (s: Span)
        ensures
            s == (Span { file_id, start, end }),
    {
        Self { file_id, start, end }
    }

    /// An empty span at `offset`.
    pub fn point(file_id: usize, offset: usize) -> (s: Span)
        ensures
            s == (Span { file_id, start: offset, end: offset }),
    {
        Self { file_id, start: offset, end: offset }
    }
}


// ---------------------------------------------------------------------------
// Source files and their lines.
// ---------------------------------------------------------------------------

/// A source file as the specifications see it: its name, its UTF-8 bytes and the byte
/// offsets at which its lines start.
pub struct SpecFile {
    pub name: Seq<char>,
    pub bytes: Seq<u8>,
    pub line_starts: Seq<usize>,
}

impl View for SourceFile {
    type V = SpecFile;

    open spec fn view(&self) -> SpecFile {
        SpecFile {
            name: self.name@,
            bytes: encode_utf8(self.content@),
            line_starts: self.line_starts@,
        }
    }
}

pub open spec fn files_view(v: Seq<SourceFile>) -> Seq<SpecFile> {
    v.map_values(|f: SourceFile| f@)
}

/// The offsets just past each newline byte of `b`, in increasing order.
pub open spec fn newline_ends(b: Seq<u8>) -> Seq<usize>
    decreases b.len(),
{
    if b.len() == 0 {
        Seq::empty()
    } else {
        newline_ends(b.drop_last()) + if b.last() == 10u8 {
            seq![b.len() as usize]
        } else {
            Seq::empty()
        }
    }
}

/// Line starts: offset 0, then the offset after each newline.
pub open spec fn line_starts_of(b: Seq<u8>) -> Seq<usize> {
    seq![0usize] + newline_ends(b)
}

/// The file a name and a text make: what `SourceFile::new` builds.
pub open spec fn file_model(name: Seq<char>, bytes: Seq<u8>) -> SpecFile {
    SpecFile { name, bytes, line_starts: line_starts_of(bytes) }
}

/// Well-formedness: the line starts are those of the bytes, which are valid UTF-8 and
/// shorter than the largest `usize`.
pub open spec fn file_wf(f: SpecFile) -> bool {
    &&& f.line_starts == line_starts_of(f.bytes)
    &&& valid_utf8(f.bytes)
    &&& f.bytes.len() < usize::MAX
}

impl SourceFile {
    pub open spec fn wf(&self) -> bool {
        file_wf(self@)
    }
}

/// The byte range of line `line` (1-based), without its line break (`\n` or `\r\n`).
pub open spec fn line_range(f: SpecFile, line: int) -> (int, int) {
    let start = f.line_starts[line - 1] as int;
    let next = if line < f.line_starts.len() {
        f.line_starts[line] as int
    } else {
        f.bytes.len() as int
    };
    let end1 = if next < f.bytes.len() {
        next
    } else {
        f.bytes.len() as int
    };
    let end2 = if end1 > start && f.bytes[end1 - 1] == 10u8 {
        end1 - 1
    } else {
        end1
    };
    let end3 = if end2 > start && f.bytes[end2 - 1] == 13u8 {
        end2 - 1
    } else {
        end2
    };
    (start, end3)
}

/// The text of line `line` (1-based), if the file has such a line.
pub open spec fn spec_line_text(f: SpecFile, line: int) -> Option<Seq<char>> {
    if 1 <= line <= f.line_starts.len() {
        let (s, e) = line_range(f, line);
        Some(decode_utf8(f.bytes.subrange(s, e)))
    } else {
        None
    }
}

/// How many elements of `s` are at most `x`.
pub open spec fn count_le(s: Seq<usize>, x: int) -> nat
    decreases s.len(),
{
    if s.len() == 0 {
        0
    } else {
        count_le(s.drop_last(), x) + if s.last() <= x {
            1nat
        } else {
            0nat
        }
    }
}

/// The 1-based line and column of byte offset `start` (clamped to the end of the file):
/// the line is the number of line starts at or before the offset, the column counts bytes
/// from that line's start.
pub open spec fn spec_line_col(f: SpecFile, start: usize) -> (usize, usize) {
    let offset = if start < f.bytes.len() {
        start as int
    } else {
        f.bytes.len() as int
    };
    let c = count_le(f.line_starts, offset);
    let index = if c >= 1 {
        c - 1
    } else {
        0
    };
    let line_start = f.line_starts[index] as int;
    let column = if offset >= line_start {
        offset - line_start
    } else {
        0
    };
    ((index + 1) as usize, (column + 1) as usize)
}

proof fn lemma_newline_ends(b: Seq<u8>)
    requires
        b.len() <= usize::MAX,
    ensures
        forall|j: int|
            0 <= j < newline_ends(b).len() ==> 1 <= #[trigger] newline_ends(b)[j] <= b.len()
                && b[newline_ends(b)[j] - 1] == 10u8,
        forall|i: int, j: int|
            0 <= i < j < newline_ends(b).len() ==> newline_ends(b)[i] < newline_ends(b)[j],
        newline_ends(b).len() <= b.len(),
    decreases b.len(),
{
    if b.len() > 0 {
        let d = b.drop_last();
        lemma_newline_ends(d);
        let prev = newline_ends(d);
        let cur = newline_ends(b);
        assert forall|j: int| 0 <= j < prev.len() implies b[prev[j] - 1] == 10u8 by {
            assert(d[prev[j] - 1] == 10u8);
        }
        if b.last() == 10u8 {
            assert(cur == prev + seq![b.len() as usize]);
            assert(cur[prev.len() as int] == b.len());
            assert forall|j: int| 0 <= j < cur.len() implies 1 <= #[trigger] cur[j] <= b.len()
                && b[cur[j] - 1] == 10u8 by {
                if j < prev.len() {
                    assert(cur[j] == prev[j]);
                }
            }
            assert forall|i: int, j: int| 0 <= i < j < cur.len() implies cur[i] < cur[j] by {
                assert(cur[i] == prev[i]);
                if j < prev.len() {
                    assert(cur[j] == prev[j]);
                }
            }
        } else {
            assert(cur =~= prev);
        }
    }
}

proof fn lemma_line_starts(f: SpecFile)
    requires
        file_wf(f),
    ensures
        f.line_starts.len() >= 1,
        f.line_starts.len() <= f.bytes.len() + 1,
        f.line_starts[0] == 0,
        forall|j: int| 0 <= j < f.line_starts.len() ==> #[trigger] f.line_starts[j] <= f.bytes.len(),
        forall|j: int|
            1 <= j < f.line_starts.len() ==> f.bytes[#[trigger] f.line_starts[j] - 1] == 10u8,
        forall|i: int, j: int|
            0 <= i < j < f.line_starts.len() ==> #[trigger] f.line_starts[i]
                < #[trigger] f.line_starts[j],
{
    lemma_newline_ends(f.bytes);
    let ne = newline_ends(f.bytes);
    assert(f.line_starts[0] == 0);
    assert forall|j: int| 1 <= j < f.line_starts.len() implies f.bytes[#[trigger] f.line_starts[j]
        - 1] == 10u8 by {
        assert(f.line_starts[j] == ne[j - 1]);
    }
    assert forall|i: int, j: int| 0 <= i < j < f.line_starts.len() implies #[trigger] f.line_starts[i]
        < #[trigger] f.line_starts[j] by {
        assert(f.line_starts[j] == ne[j - 1]);
        if i > 0 {
            assert(f.line_starts[i] == ne[i - 1]);
        }
    }
}

/// The number of newlines among the first `n` bytes.
pub open spec fn newlines_before(b: Seq<u8>, n: int) -> nat
    decreases n,
{
    if n <= 0 {
        0
    } else {
        newlines_before(b, n - 1) + if b[n - 1] == 10u8 {
            1nat
        } else {
            0nat
        }
    }
}

/// The offset at which the line holding offset `n` begins: just after the last newline
/// before `n`, or 0.
pub open spec fn line_begin(b: Seq<u8>, n: int) -> int
    decreases n,
{
    if n <= 0 {
        0
    } else if b[n - 1] == 10u8 {
        n
    } else {
        line_begin(b, n - 1)
    }
}

/// In a strictly increasing sequence, `count_le(s, x)` splits the entries at most `x`
/// from the rest.
proof fn lemma_count_le_split(s: Seq<usize>, x: int)
    requires
        forall|i: int, j: int| 0 <= i < j < s.len() ==> #[trigger] s[i] < #[trigger] s[j],
    ensures
        count_le(s, x) <= s.len(),
        forall|j: int| 0 <= j < count_le(s, x) ==> #[trigger] s[j] <= x,
        forall|j: int| count_le(s, x) <= j < s.len() ==> #[trigger] s[j] > x,
    decreases s.len(),
{
    if s.len() > 0 {
        let d = s.drop_last();
        assert forall|i: int, j: int| 0 <= i < j < d.len() implies #[trigger] d[i] < #[trigger] d[j] by {
            assert(s[i] < s[j]);
        }
        lemma_count_le_split(d, x);
        let c = count_le(d, x);
        if s.last() <= x {
            if c < d.len() {
                assert(d[c as int] > x);
                assert(s[c as int] < s[s.len() - 1]);
            }
            assert forall|j: int| 0 <= j < count_le(s, x) implies #[trigger] s[j] <= x by {
                if j < d.len() {
                    assert(s[j] == d[j]);
                }
            }
        } else {
            assert forall|j: int| 0 <= j < count_le(s, x) implies #[trigger] s[j] <= x by {
                assert(s[j] == d[j]);
            }
            assert forall|j: int| count_le(s, x) <= j < s.len() implies #[trigger] s[j] > x by {
                if j < d.len() {
                    assert(s[j] == d[j]);
                }
            }
        }
    }
}

proof fn lemma_newline_in_ends(b: Seq<u8>, y: int)
    requires
        1 <= y <= b.len(),
        b[y - 1] == 10u8,
    ensures
        newline_ends(b).contains(y as usize),
    decreases b.len(),
{
    let d = b.drop_last();
    let prev = newline_ends(d);
    if y == b.len() {
        assert(newline_ends(b) == prev + seq![b.len() as usize]);
        assert(newline_ends(b)[prev.len() as int] == y as usize);
    } else {
        assert(d[y - 1] == 10u8);
        lemma_newline_in_ends(d, y);
        let k = choose|k: int| 0 <= k < prev.len() && prev[k] == y as usize;
        if b.last() == 10u8 {
            assert(newline_ends(b) == prev + seq![b.len() as usize]);
            assert(newline_ends(b)[k] == y as usize);
        } else {
            assert(newline_ends(b) == prev);
        }
    }
}

proof fn lemma_line_count_step(f: SpecFile, x: int)
    requires
        file_wf(f),
        0 <= x < f.bytes.len(),
        count_le(f.line_starts, x) == 1 + newlines_before(f.bytes, x),
        f.line_starts[count_le(f.line_starts, x) - 1] == line_begin(f.bytes, x),
    ensures
        count_le(f.line_starts, x + 1) == 1 + newlines_before(f.bytes, x + 1),
        f.line_starts[count_le(f.line_starts, x + 1) - 1] == line_begin(f.bytes, x + 1),
{
    let ls = f.line_starts;
    let b = f.bytes;
    lemma_line_starts(f);
    lemma_count_le_split(ls, x);
    lemma_count_le_split(ls, x + 1);
    let c = count_le(ls, x) as int;
    let c2 = count_le(ls, x + 1) as int;
    assert(c <= c2) by {
        if c2 < c {
            assert(ls[c2] <= x);
        }
    }
    assert(c2 <= c + 1) by {
        if c2 > c + 1 {
            assert(ls[c + 1] <= x + 1);
            assert(ls[c] > x);
            assert(ls[c] < ls[c + 1]);
        }
    }
    if b[x] == 10u8 {
        lemma_newline_in_ends(b, x + 1);
        let k = choose|k: int| 0 <= k < newline_ends(b).len() && newline_ends(b)[k] == (x + 1) as usize;
        assert(ls[k + 1] == x + 1);
        assert(k + 1 >= c);
        assert(k + 1 < c2);
        assert(c2 == c + 1);
        assert(k + 1 == c);
    } else {
        if c2 == c + 1 {
            assert(ls[c] <= x + 1);
            assert(ls[c] == x + 1);
            assert(c >= 1);
            assert(b[ls[c] - 1] == 10u8);
        }
    }
}

proof fn lemma_line_count(f: SpecFile, x: int)
    requires
        file_wf(f),
        0 <= x <= f.bytes.len(),
    ensures
        count_le(f.line_starts, x) == 1 + newlines_before(f.bytes, x),
        f.line_starts[count_le(f.line_starts, x) - 1] == line_begin(f.bytes, x),
    decreases x,
{
    if x == 0 {
        let ls = f.line_starts;
        lemma_line_starts(f);
        lemma_count_le_split(ls, 0);
        if count_le(ls, 0) > 1 {
            assert(ls[1] <= 0);
            assert(ls[0] < ls[1]);
        }
        assert(count_le(ls, 0) >= 1) by {
            if count_le(ls, 0) == 0 {
                assert(ls[0] > 0);
            }
        }
    } else {
        lemma_line_count(f, x - 1);
        lemma_line_count_step(f, x - 1);
    }
}

/// The end of each line is a character boundary, so the text up to it is valid UTF-8.
proof fn lemma_line_end_boundary(f: SpecFile, k: int)
    requires
        file_wf(f),
        !f.bytes.contains(13u8),
        1 <= k <= f.line_starts.len(),
    ensures
        is_char_boundary(f.bytes, line_range(f, k).1),
        valid_utf8(f.bytes.subrange(0, line_range(f, k).1)),
        valid_utf8(f.bytes.subrange(line_range(f, k).0, line_range(f, k).1)),
        spec_line_text(f, k) == Some(
            decode_utf8(f.bytes.subrange(line_range(f, k).0, line_range(f, k).1)),
        ),
{
    lemma_line_bounds(f, k);
    lemma_line_starts(f);
    let b = f.bytes;
    let (s, e) = line_range(f, k);
    vstd::utf8::is_char_boundary_start_end_of_seq(b);
    if e < b.len() {
        assert(b[e] == 10u8);
        lemma_ascii_is_boundary(b, e);
    }
    vstd::utf8::valid_utf8_split(b, e);
    let p = b.subrange(0, e);
    lemma_line_start_boundary(f, k - 1);
    if s < p.len() {
        assert(is_char_boundary(b, s));
        vstd::utf8::is_char_boundary_iff_is_leading_byte(b, s);
        vstd::utf8::is_char_boundary_iff_is_leading_byte(p, s);
        assert(p[s] == b[s]);
    }
    vstd::utf8::is_char_boundary_start_end_of_seq(p);
    vstd::utf8::valid_utf8_split(p, s);
    assert(p.subrange(s, p.len() as int) =~= b.subrange(s, e));
}

/// The first `m` lines, joined by line feeds, are the text up to the end of line `m`.
proof fn lemma_join_first_lines(f: SpecFile, m: int)
    requires
        file_wf(f),
        !f.bytes.contains(13u8),
        1 <= m <= f.line_starts.len(),
    ensures
        join_lines(first_lines(f, m)) == decode_utf8(f.bytes.subrange(0, line_range(f, m).1)),
    decreases m,
{
    let b = f.bytes;
    lemma_line_starts(f);
    lemma_line_bounds(f, m);
    lemma_line_end_boundary(f, m);
    let v = first_lines(f, m);
    if m == 1 {
        assert(line_range(f, 1).0 == 0);
        assert(v.len() == 1);
    } else {
        lemma_join_first_lines(f, m - 1);
        lemma_line_bounds(f, m - 1);
        lemma_line_end_boundary(f, m - 1);
        assert(v.drop_last() =~= first_lines(f, m - 1));
        let e1 = line_range(f, m - 1).1;
        let (s2, e2) = line_range(f, m);
        assert(e1 == f.line_starts[m - 1] - 1);
        assert(s2 == e1 + 1);
        assert(b[e1] == 10u8);
        let x = b.subrange(0, e2);
        assert(x[e1] == 10u8);
        lemma_ascii_is_boundary(x, e1);
        vstd::utf8::decode_utf8_split(x, e1);
        vstd::utf8::valid_utf8_split(x, e1);
        assert(x.subrange(0, e1) =~= b.subrange(0, e1));
        let y = x.subrange(e1, e2);
        assert(y[0] == 10u8);
        vstd::utf8::is_char_boundary_start_end_of_seq(y);
        lemma_boundary_after_ascii(y, 0);
        vstd::utf8::decode_utf8_split(y, 1);
        assert(y.subrange(0, 1) =~= seq![10u8]);
        lemma_decode_newline();
        assert(y.subrange(1, y.len() as int) =~= b.subrange(s2, e2));
        assert(x.subrange(e1, x.len() as int) =~= y);
    }
}

/// In a text without carriage returns, the lines are exactly the pieces between line
/// feeds: there is no line 0 and none after the last, no line holds a line feed, and
/// the lines joined by line feeds give back the whole text.
pub proof fn lemma_lines_rebuild_text(f: SpecFile)
    requires
        file_wf(f),
        !f.bytes.contains(13u8),
    ensures
        spec_line_text(f, 0) is None,
        spec_line_text(f, f.line_starts.len() + 1int) is None,
        forall|k: int|
            1 <= k <= f.line_starts.len() ==> ((#[trigger] spec_line_text(f, k)) matches Some(t)
                && !t.contains('\n')),
        join_lines(first_lines(f, f.line_starts.len() as int)) == decode_utf8(f.bytes),
{
    lemma_line_starts(f);
    let n = f.line_starts.len() as int;
    assert forall|k: int| 1 <= k <= n implies ((#[trigger] spec_line_text(f, k)) matches Some(t)
        && !t.contains('\n')) by {
        lemma_line_bounds(f, k);
        lemma_line_end_boundary(f, k);
        let (s, e) = line_range(f, k);
        let x = f.bytes.subrange(s, e);
        assert forall|i: int| 0 <= i < x.len() implies x[i] != 10u8 by {
            assert(x[i] == f.bytes[s + i]);
        }
        lemma_decoded_has_no_newline(x);
    }
    lemma_join_first_lines(f, n);
    lemma_line_bounds(f, n);
    assert(f.bytes.subrange(0, f.bytes.len() as int) =~= f.bytes);
}

/// Lines and columns count from 1: the line of an offset (clamped to the end of the
/// text) is one more than the number of newlines before it, and its column is one more
/// than the number of bytes between the start of its line and it.
pub proof fn lemma_line_col_counts(f: SpecFile, start: usize)
    requires
        file_wf(f),
    ensures
        ({
            let offset = if start < f.bytes.len() {
                start as int
            } else {
                f.bytes.len() as int
            };
            &&& spec_line_col(f, start).0 == 1 + newlines_before(f.bytes, offset)
            &&& spec_line_col(f, start).1 == offset - line_begin(f.bytes, offset) + 1
            &&& 0 <= line_begin(f.bytes, offset) <= offset
        }),
{
    let offset = if start < f.bytes.len() {
        start as int
    } else {
        f.bytes.len() as int
    };
    lemma_line_count(f, offset);
    lemma_line_begin_bound(f.bytes, offset);
    lemma_line_starts(f);
    lemma_count_le_split(f.line_starts, offset);
}

proof fn lemma_line_begin_bound(b: Seq<u8>, n: int)
    requires
        n >= 0,
    ensures
        0 <= line_begin(b, n) <= n,
    decreases n,
{
    if n > 0 {
        lemma_line_begin_bound(b, n - 1);
    }
}

proof fn lemma_decode_newline()
    ensures
        valid_utf8(seq![10u8]),
        decode_utf8(seq![10u8]) == seq!['\n'],
{
    let c = seq!['\n'];
    assert(10u32 & 0x7F == 10) by (bit_vector);
    assert(c[0] as u32 == 10u32);
    assert(encode_utf8(c.drop_first()) == Seq::<u8>::empty());
    assert(encode_utf8(c) =~= seq![10u8]);
    vstd::utf8::encode_utf8_valid_utf8(c);
    vstd::utf8::encode_utf8_decode_utf8(c);
}

/// Texts joined with a line feed between each two.
pub open spec fn join_lines(v: Seq<Seq<char>>) -> Seq<char>
    decreases v.len(),
{
    if v.len() == 0 {
        Seq::empty()
    } else if v.len() == 1 {
        v[0]
    } else {
        join_lines(v.drop_last()) + seq!['\n'] + v.last()
    }
}

/// The texts of the first `m` lines of a file.
pub open spec fn first_lines(f: SpecFile, m: int) -> Seq<Seq<char>> {
    Seq::new(
        m as nat,
        |k: int|
            match spec_line_text(f, k + 1) {
                Some(t) => t,
                None => Seq::empty(),
            },
    )
}

/// In a file without carriage returns, line `k` runs from its start to the byte before
/// the next line's start (the end of the text for the last line), and holds no line feed.
proof fn lemma_line_bounds(f: SpecFile, k: int)
    requires
        file_wf(f),
        !f.bytes.contains(13u8),
        1 <= k <= f.line_starts.len(),
    ensures
        line_range(f, k).0 == f.line_starts[k - 1],
        line_range(f, k).1 == if k < f.line_starts.len() {
            f.line_starts[k] - 1
        } else {
            f.bytes.len() as int
        },
        line_range(f, k).0 <= line_range(f, k).1,
        forall|i: int|
            line_range(f, k).0 <= i < line_range(f, k).1 ==> #[trigger] f.bytes[i] != 10u8,
{
    let b = f.bytes;
    let ls = f.line_starts;
    let n = ls.len() as int;
    lemma_line_starts(f);
    let start = ls[k - 1] as int;
    if k < n {
        assert(ls[k - 1] < ls[k]);
        assert(b[ls[k] - 1] == 10u8);
        let e = ls[k] - 1;
        if e > start {
            assert(b[e - 1] != 13u8) by {
                if b[e - 1] == 13u8 {
                    assert(b.contains(13u8));
                }
            }
        }
    } else {
        if b.len() > start && b[b.len() - 1] == 10u8 {
            lemma_newline_in_ends(b, b.len() as int);
            let j = choose|j: int|
                0 <= j < newline_ends(b).len() && newline_ends(b)[j] == b.len() as usize;
            assert(ls[j + 1] == b.len());
            assert(ls[j + 1] <= ls[n - 1]) by {
                if j + 1 < n - 1 {
                    assert(ls[j + 1] < ls[n - 1]);
                }
            }
        }
        if b.len() > start {
            assert(b[b.len() - 1] != 13u8) by {
                if b[b.len() - 1] == 13u8 {
                    assert(b.contains(13u8));
                }
            }
        }
    }
    let end = line_range(f, k).1;
    assert forall|i: int| start <= i < end implies #[trigger] b[i] != 10u8 by {
        if b[i] == 10u8 {
            lemma_newline_in_ends(b, i + 1);
            let j = choose|j: int|
                0 <= j < newline_ends(b).len() && newline_ends(b)[j] == (i + 1) as usize;
            assert(ls[j + 1] == i + 1);
            if j + 1 <= k - 1 {
                if j + 1 < k - 1 {
                    assert(ls[j + 1] < ls[k - 1]);
                }
            } else if k < n {
                if j + 1 > k {
                    assert(ls[k] < ls[j + 1]);
                }
            }
        }
    }
}

/// A line feed among characters puts a line feed byte in their encoding.
proof fn lemma_encoded_newline(t: Seq<char>, j: int)
    requires
        0 <= j < t.len(),
        t[j] == '\n',
    ensures
        encode_utf8(t).contains(10u8),
    decreases j,
{
    let e = encode_utf8(t);
    let rest = encode_utf8(t.drop_first());
    if j == 0 {
        assert(10u32 & 0x7F == 10) by (bit_vector);
        assert(t[0] as u32 == 10u32);
        assert(e[0] == 10u8);
    } else {
        lemma_encoded_newline(t.drop_first(), j - 1);
        let k = choose|k: int| 0 <= k < rest.len() && rest[k] == 10u8;
        let head = encode_scalar(t[0] as u32);
        assert(e == head + rest);
        assert(e[head.len() + k] == 10u8);
    }
}

/// Valid UTF-8 without a line feed byte decodes to text without a line feed.
proof fn lemma_decoded_has_no_newline(x: Seq<u8>)
    requires
        valid_utf8(x),
        forall|i: int| 0 <= i < x.len() ==> x[i] != 10u8,
    ensures
        !decode_utf8(x).contains('\n'),
{
    let t = decode_utf8(x);
    vstd::utf8::decode_utf8_encode_utf8(x);
    if t.contains('\n') {
        let j = choose|j: int| 0 <= j < t.len() && t[j] == '\n';
        lemma_encoded_newline(t, j);
    }
}

/// In valid UTF-8, the offset just after an ASCII byte is a character boundary.
proof fn lemma_boundary_after_ascii(b: Seq<u8>, i: int)
    requires
        valid_utf8(b),
        0 <= i < b.len(),
        b[i] < 128,
        is_char_boundary(b, i),
    ensures
        is_char_boundary(b, i + 1),
    decreases b.len(),
{
    let l = length_of_first_scalar(b);
    let tail = pop_first_scalar(b);
    if i == 0 {
        reveal_with_fuel(is_char_boundary, 2);
    } else {
        assert(is_char_boundary(tail, i - l));
        assert(i - l >= 0);
        assert(tail[i - l] == b[i]);
        if i - l < tail.len() {
            lemma_boundary_after_ascii(tail, i - l);
        }
    }
}

/// An ASCII byte starts a character.
proof fn lemma_ascii_is_boundary(b: Seq<u8>, i: int)
    requires
        valid_utf8(b),
        0 <= i < b.len(),
        b[i] < 128,
    ensures
        is_char_boundary(b, i),
{
    vstd::utf8::is_char_boundary_iff_is_leading_byte(b, i);
}

/// Every line start of a well-formed file is a character boundary.
proof fn lemma_line_start_boundary(f: SpecFile, j: int)
    requires
        file_wf(f),
        0 <= j < f.line_starts.len(),
    ensures
        is_char_boundary(f.bytes, f.line_starts[j] as int),
{
    lemma_line_starts(f);
    vstd::utf8::is_char_boundary_start_end_of_seq(f.bytes);
    if j > 0 {
        let p = f.line_starts[j] - 1;
        lemma_ascii_is_boundary(f.bytes, p);
        lemma_boundary_after_ascii(f.bytes, p);
    }
}

proof fn lemma_count_le_partition(s: Seq<usize>, x: int, p: int)
    requires
        0 <= p <= s.len(),
        forall|j: int| 0 <= j < p ==> s[j] <= x,
        forall|j: int| p <= j < s.len() ==> s[j] > x,
    ensures
        count_le(s, x) == p,
    decreases s.len(),
{
    if s.len() > 0 {
        let q = if p < s.len() {
            p
        } else {
            p - 1
        };
        lemma_count_le_partition(s.drop_last(), x, q);
    }
}

impl SourceFile {
    /// A file named `name` holding `content`, with the offset of each line start.
    pub fn new(name: &str, content: &str) -> (f: SourceFile)
        requires
            content.spec_bytes().len() < usize::MAX,
        ensures
            f.name@ == name@,
            f.content@ == content@,
            f@ == file_model(name@, content.spec_bytes()),
            f.wf(),
    {
        let bytes = content.as_bytes();
        let mut line_starts: Vec<usize> = Vec::new();
        line_starts.push(0);
        let mut i: usize = 0;
        proof {
            assert(bytes@.subrange(0, 0) =~= Seq::<u8>::empty());
            assert(line_starts@ =~= line_starts_of(bytes@.subrange(0, 0)));
        }
        while i < bytes.len()
            invariant
                i <= bytes@.len(),
                line_starts@ == line_starts_of(bytes@.subrange(0, i as int)),
            decreases bytes@.len() - i,
        {
            proof {
                assert(bytes@.subrange(0, i + 1).drop_last() =~= bytes@.subrange(0, i as int));
                assert(bytes@.subrange(0, i + 1).last() == bytes@[i as int]);
            }
            if bytes[i] == 10 {
                line_starts.push(i + 1);
            }
            assert(line_starts@ =~= line_starts_of(bytes@.subrange(0, i + 1)));
            i = i + 1;
        }
        proof {
            assert(bytes@.subrange(0, bytes@.len() as int) =~= bytes@);
            vstd::utf8::encode_utf8_valid_utf8(content@);
        }
        SourceFile { name: name.to_owned(), content: content.to_owned(), line_starts }
    }

    /// The text of line `line` (1-based), without its line break; `None` when the file
    /// has no such line.
    pub fn line_text(&self, line: usize) -> (r: Option<&str>)
        requires
            self.wf(),
        ensures
            r is Some <==> 1 <= line <= self.line_starts@.len(),
            r matches Some(t) ==> spec_line_text(self@, line as int) == Some(t@),
    {
        let ghost f = self@;
        proof {
            lemma_line_starts(f);
        }
        if line == 0 || line > self.line_starts.len() {
            return None;
        }
        let start = self.line_starts[line - 1];
        let text = self.content.as_str();
        let bytes = text.as_bytes();
        assert(bytes@ == f.bytes);
        let len = bytes.len();
        let mut end = if line < self.line_starts.len() {
            self.line_starts[line]
        } else {
            len
        };
        if end > len {
            end = len;
        }
        let ghost end1 = end as int;
        if end > start && bytes[end - 1] == 10 {
            end = end - 1;
        }
        let ghost end2 = end as int;
        if end > start && bytes[end - 1] == 13 {
            end = end - 1;
        }
        assert(line_range(f, line as int) == (start as int, end as int));
        proof {
            lemma_line_start_boundary(f, line - 1);
            vstd::utf8::is_char_boundary_start_end_of_seq(f.bytes);
            // The end is the end of the text, the start itself, or a line-break byte.
            if end as int != len as int && end as int != start as int {
                if end1 != end2 || end2 != end as int {
                    lemma_ascii_is_boundary(f.bytes, end as int);
                } else {
                    assert(end1 == f.line_starts[line as int] as int);
                    assert(f.bytes[end1 - 1] == 10u8);
                    assert(false);
                }
            }
        }
        let (_, rest) = text.split_at(start);
        proof {
            let rb = f.bytes.subrange(start as int, f.bytes.len() as int);
            vstd::utf8::valid_utf8_split(f.bytes, start as int);
            vstd::utf8::is_char_boundary_start_end_of_seq(rb);
            if (end - start) as int != 0 && (end - start) as int != rb.len() {
                assert(rb[(end - start) as int] == f.bytes[end as int]);
                assert(f.bytes[end as int] < 128) by {
                    if end1 == end2 && end2 == end as int {
                        assert(false);
                    }
                }
                lemma_ascii_is_boundary(rb, (end - start) as int);
            }
        }
        let (slice, _) = rest.split_at(end - start);
        proof {
            assert(slice.spec_bytes() =~= f.bytes.subrange(start as int, end as int));
            vstd::utf8::encode_utf8_decode_utf8(slice@);
        }
        Some(slice)
    }
}

impl Span {
    /// The 1-based line and column at which the span starts.
    pub fn line_col(&self, file: &SourceFile) -> (r: (usize, usize))
        requires
            file.wf(),
        ensures
            r == spec_line_col(file@, self.start),
    {
        let ghost f = file@;
        proof {
            lemma_line_starts(f);
        }
        let len = file.content.as_str().len();
        let offset = if self.start < len {
            self.start
        } else {
            len
        };
        let starts = &file.line_starts;
        let mut lo: usize = 0;
        let mut hi: usize = starts.len();
        while lo < hi
            invariant
                starts@ == f.line_starts,
                lo <= hi <= starts@.len(),
                forall|j: int| 0 <= j < lo ==> starts@[j] <= offset,
                forall|j: int| hi <= j < starts@.len() ==> starts@[j] > offset,
                forall|i: int, j: int|
                    0 <= i < j < starts@.len() ==> #[trigger] starts@[i] < #[trigger] starts@[j],
            decreases hi - lo,
        {
            let mid = lo + (hi - lo) / 2;
            if starts[mid] <= offset {
                assert forall|j: int| 0 <= j < mid + 1 implies starts@[j] <= offset by {
                    if j < mid {
                        assert(starts@[j] < starts@[mid as int]);
                    }
                }
                lo = mid + 1;
            } else {
                assert forall|j: int| mid <= j < starts@.len() implies starts@[j] > offset by {
                    if j > mid {
                        assert(starts@[mid as int] < starts@[j]);
                    }
                }
                hi = mid;
            }
        }
        proof {
            lemma_count_le_partition(starts@, offset as int, lo as int);
        }
        let index = if lo >= 1 {
            lo - 1
        } else {
            0
        };
        let line_start = starts[index];
        let column = if offset >= line_start {
            offset - line_start
        } else {
            0
        };
        (index + 1, column + 1)
    }
}


// ---------------------------------------------------------------------------
// Snippets.
// ---------------------------------------------------------------------------

/// One row of a snippet: the line number right-aligned in `width` columns, a bar and the
/// line's text.
pub open spec fn snippet_row(f: SpecFile, line: int, width: nat) -> Seq<char> {
    match spec_line_text(f, line) {
        Some(t) => pad_left(decimal(line as nat), width) + " | "@ + t + "\n"@,
        None => Seq::empty(),
    }
}

/// The rows of lines `from` through `to`.
pub open spec fn snippet_rows(f: SpecFile, from: int, to: int, width: nat) -> Seq<char>
    decreases to - from + 1,
{
    if to < from {
        Seq::empty()
    } else {
        snippet_rows(f, from, to - 1, width) + snippet_row(f, to, width)
    }
}

/// The lines around the line of `start`, `context` lines either side, clipped to the file.
pub open spec fn spec_snippet(f: SpecFile, start: usize, context: usize) -> Seq<char> {
    let line = spec_line_col(f, start).0 as int;
    let from = if line - context >= 1 {
        line - context
    } else {
        1
    };
    let to = if line + context <= f.line_starts.len() {
        line + context
    } else {
        f.line_starts.len() as int
    };
    snippet_rows(f, from, to, decimal(to as nat).len())
}

proof fn lemma_line_col_bounds(f: SpecFile, start: usize)
    requires
        file_wf(f),
    ensures
        1 <= spec_line_col(f, start).0 <= f.line_starts.len(),
        spec_line_col(f, start).1 >= 1,
{
    lemma_line_starts(f);
    let offset = if start < f.bytes.len() {
        start as int
    } else {
        f.bytes.len() as int
    };
    lemma_count_le_bound(f.line_starts, offset);
}

proof fn lemma_count_le_bound(s: Seq<usize>, x: int)
    ensures
        count_le(s, x) <= s.len(),
    decreases s.len(),
{
    if s.len() > 0 {
        lemma_count_le_bound(s.drop_last(), x);
    }
}

fn write_line_row(out: &mut String, file: &SourceFile, line: usize, width: usize)
    requires
        file.wf(),
    ensures
        final(out)@ == old(out)@ + snippet_row(file@, line as int, width as nat),
{
    match file.line_text(line) {
        Some(text) => {
            let ghost start = out@;
            push_padded_decimal(out, line as u64, width);
            push_str(out, " | ");
            push_str(out, text);
            push_str(out, "\n");
            assert(out@ =~= start + snippet_row(file@, line as int, width as nat));
        },
        None => {
            assert(old(out)@ + Seq::<char>::empty() =~= old(out)@);
        },
    }
}

impl Span {
    /// The lines around the span's line, `context_lines` on either side, each prefixed by
    /// its right-aligned line number.
    pub fn snippet(&self, file: &SourceFile, context_lines: usize) -> (s: String)
        requires
            file.wf(),
            file.line_starts@.len() + context_lines <= usize::MAX,
        ensures
            s@ == spec_snippet(file@, self.start, context_lines),
    {
        let ghost f = file@;
        proof {
            lemma_line_col_bounds(f, self.start);
        }
        let (line, _) = self.line_col(file);
        let start_line = if line > context_lines && line - context_lines >= 1 {
            line - context_lines
        } else {
            1
        };
        let end_line = if line + context_lines <= file.line_starts.len() {
            line + context_lines
        } else {
            file.line_starts.len()
        };
        let width = decimal_width_usize(end_line);
        let mut rendered = String::new();
        let mut current = start_line;
        let ghost w = width as nat;
        proof {
            assert(rendered@ =~= snippet_rows(f, start_line as int, current as int - 1, w));
        }
        loop
            invariant_except_break
                file.wf(),
                f == file@,
                1 <= start_line <= current <= end_line,
                w == width as nat,
                rendered@ == snippet_rows(f, start_line as int, current as int - 1, w),
            ensures
                rendered@ == snippet_rows(f, start_line as int, end_line as int, w),
            decreases end_line - current,
        {
            write_line_row(&mut rendered, file, current, width);
            assert(rendered@ == snippet_rows(f, start_line as int, current as int, w));
            if current == end_line {
                break;
            }
            current = current + 1;
        }
        rendered
    }
}

fn decimal_width_usize(n: usize) -> (w: usize)
    ensures
        w == decimal(n as nat).len(),
{
    crate::text::decimal_width(n as u64)
}

// ---------------------------------------------------------------------------
// Rendering diagnostics.
// ---------------------------------------------------------------------------

pub open spec fn severity_text(s: Severity) -> Seq<char> {
    match s {
        Severity::Error => "Error"@,
        Severity::Warning => "Warning"@,
        Severity::Note => "Note"@,
        Severity::Help => "Help"@,
    }
}

/// `Severity[code]: message` (or `Severity: message` without a code), then a newline.
pub open spec fn header_text(d: SpecDiagnostic) -> Seq<char> {
    severity_text(d.severity) + match d.code {
        Some(c) => "["@ + c + "]"@,
        None => Seq::empty(),
    } + ": "@ + d.message + "\n"@
}

/// The marker under a label: spaces up to the column, a caret, one tilde for each further
/// byte of the span, then the label's message after a space when there is one.
pub open spec fn marker_text(column: nat, width: nat, message: Seq<char>) -> Seq<char> {
    repeat_char(' ', (column - 1) as nat) + "^"@ + (if width > 1 {
        repeat_char('~', (width - 1) as nat)
    } else {
        Seq::empty()
    }) + (if message.len() > 0 {
        " "@ + message
    } else {
        Seq::empty()
    })
}

/// `  --> name:line:column`, indented to the gutter.
pub open spec fn location_line(name: Seq<char>, line: nat, column: nat, gutter: nat) -> Seq<char> {
    repeat_char(' ', gutter) + " --> "@ + name + ":"@ + decimal(line) + ":"@ + decimal(column)
        + "\n"@
}

/// The line's number and its text.
pub open spec fn source_line(line: nat, gutter: nat, text: Seq<char>) -> Seq<char> {
    pad_left(decimal(line), gutter) + " | "@ + text + "\n"@
}

/// The four lines that show a label inside its file.
pub open spec fn located_label_text(l: SpecLabel, f: SpecFile) -> Seq<char> {
    let (line, column) = spec_line_col(f, l.span.start);
    let text = match spec_line_text(f, line as int) {
        Some(t) => t,
        None => Seq::empty(),
    };
    let width: nat = if l.span.end > l.span.start {
        (l.span.end - l.span.start) as nat
    } else {
        1
    };
    let gutter = decimal(line as nat).len();
    location_line(f.name, line as nat, column as nat, gutter) + (repeat_char(' ', gutter)
        + " |\n"@) + source_line(line as nat, gutter, text) + (repeat_char(' ', gutter) + " | "@
        + marker_text(column as nat, width, l.message) + "\n"@)
}

/// A label, shown in its file, or as `<unknown>` when no file has its id.
pub open spec fn label_text(l: SpecLabel, files: Seq<SpecFile>) -> Seq<char> {
    if l.span.file_id < files.len() {
        located_label_text(l, files[l.span.file_id as int])
    } else {
        "  --> <unknown>:"@ + decimal((l.span.start + 1) as nat) + ":1\n"@
    }
}

pub open spec fn labels_text(v: Seq<SpecLabel>, files: Seq<SpecFile>) -> Seq<char>
    decreases v.len(),
{
    if v.len() == 0 {
        Seq::empty()
    } else {
        labels_text(v.drop_last(), files) + label_text(v.last(), files)
    }
}

pub open spec fn notes_text(v: Seq<Seq<char>>) -> Seq<char>
    decreases v.len(),
{
    if v.len() == 0 {
        Seq::empty()
    } else {
        notes_text(v.drop_last()) + "   = note: "@ + v.last() + "\n"@
    }
}

/// The text of a diagnostic: its header, each label, then each note.
pub open spec fn diagnostic_text(d: SpecDiagnostic, files: Seq<SpecFile>) -> Seq<char> {
    header_text(d) + labels_text(d.labels, files) + notes_text(d.notes)
}

pub open spec fn all_wf(files: Seq<SourceFile>) -> bool {
    forall|i: int| 0 <= i < files.len() ==> #[trigger] files[i].wf()
}

fn write_header(out: &mut String, d: &Diagnostic)
    ensures
        final(out)@ == old(out)@ + header_text(d@),
{
    let ghost start = out@;
    match d.severity {
        Severity::Error => push_str(out, "Error"),
        Severity::Warning => push_str(out, "Warning"),
        Severity::Note => push_str(out, "Note"),
        Severity::Help => push_str(out, "Help"),
    }
    let ghost mid = out@;
    match &d.code {
        Some(code) => {
            push_str(out, "[");
            push_str(out, code.as_str());
            push_str(out, "]");
        },
        None => {},
    }
    assert(out@ =~= mid + match d@.code {
        Some(c) => "["@ + c + "]"@,
        None => Seq::empty(),
    });
    push_str(out, ": ");
    push_str(out, d.message.as_str());
    push_str(out, "\n");
    assert(out@ =~= start + header_text(d@));
}

fn write_marker(out: &mut String, column: usize, width: usize, message: &String)
    requires
        column >= 1,
        width >= 1,
    ensures
        final(out)@ == old(out)@ + marker_text(column as nat, width as nat, message@),
{
    let ghost start = out@;
    push_repeat(out, ' ', column - 1);
    push_str(out, "^");
    let ghost a = out@;
    if width > 1 {
        push_repeat(out, '~', width - 1);
    }
    let ghost b = out@;
    assert(b =~= a + (if width > 1 {
        repeat_char('~', (width - 1) as nat)
    } else {
        Seq::empty()
    }));
    if !message.as_str().is_empty() {
        push_str(out, " ");
        push_str(out, message.as_str());
    }
    assert(out@ =~= b + (if message@.len() > 0 {
        " "@ + message@
    } else {
        Seq::empty()
    }));
    assert(out@ =~= start + marker_text(column as nat, width as nat, message@));
}

fn write_location(out: &mut String, name: &String, line: usize, column: usize, gutter: usize)
    ensures
        final(out)@ == old(out)@ + location_line(
            name@,
            line as nat,
            column as nat,
            gutter as nat,
        ),
{
    let ghost start = out@;
    push_repeat(out, ' ', gutter);
    push_str(out, " --> ");
    push_str(out, name.as_str());
    push_str(out, ":");
    push_decimal(out, line as u128);
    push_str(out, ":");
    push_decimal(out, column as u128);
    push_str(out, "\n");
    assert(out@ =~= start + location_line(name@, line as nat, column as nat, gutter as nat));
}

fn write_source_line(out: &mut String, line: usize, gutter: usize, text: &str)
    ensures
        final(out)@ == old(out)@ + source_line(line as nat, gutter as nat, text@),
{
    let ghost start = out@;
    push_padded_decimal(out, line as u64, gutter);
    push_str(out, " | ");
    push_str(out, text);
    push_str(out, "\n");
    assert(out@ =~= start + source_line(line as nat, gutter as nat, text@));
}

#[verifier::spinoff_prover]
#[verifier::rlimit(30)]
fn write_located_label(out: &mut String, label: &Label, file: &SourceFile)
    requires
        file.wf(),
    ensures
        final(out)@ == old(out)@ + located_label_text(label@, file@),
{
    let ghost start = out@;
    let ghost f = file@;
    proof {
        lemma_line_col_bounds(f, label.span.start);
    }
    let (line, column) = label.span.line_col(file);
    let text: &str = match file.line_text(line) {
        Some(t) => t,
        None => "",
    };
    assert(text@ == match spec_line_text(f, line as int) {
        Some(t) => t,
        None => Seq::<char>::empty(),
    });
    let width = if label.span.end > label.span.start {
        label.span.end - label.span.start
    } else {
        1
    };
    let gutter = decimal_width_usize(line);
    write_location(out, &file.name, line, column, gutter);
    let ghost a = out@;
    push_repeat(out, ' ', gutter);
    push_str(out, " |\n");
    let ghost b = out@;
    assert(b =~= a + (repeat_char(' ', gutter as nat) + " |\n"@));
    write_source_line(out, line, gutter, text);
    let ghost c = out@;
    push_repeat(out, ' ', gutter);
    push_str(out, " | ");
    write_marker(out, column, width, &label.message);
    push_str(out, "\n");
    assert(out@ =~= c + (repeat_char(' ', gutter as nat) + " | "@ + marker_text(
        column as nat,
        width as nat,
        label.message@,
    ) + "\n"@));
    assert(out@ =~= start + located_label_text(label@, file@));
}

fn write_label(out: &mut String, label: &Label, files: &[SourceFile])
    requires
        all_wf(files@),
    ensures
        final(out)@ == old(out)@ + label_text(label@, files_view(files@)),
{
    if label.span.file_id < files.len() {
        let file = &files[label.span.file_id];
        assert(files_view(files@)[label.span.file_id as int] == file@);
        write_located_label(out, label, file);
    } else {
        let ghost start = out@;
        push_str(out, "  --> <unknown>:");
        push_decimal(out, label.span.start as u128 + 1);
        push_str(out, ":1\n");
        assert(out@ =~= start + label_text(label@, files_view(files@)));
    }
}

impl Diagnostic {
    /// The diagnostic as text: a header line, each label shown at its place in its file,
    /// then each note.
    pub fn render(&self, files: &[SourceFile]) -> (s: String)
        requires
            all_wf(files@),
        ensures
            s@ == diagnostic_text(self@, files_view(files@)),
    {
        let ghost fv = files_view(files@);
        let ghost lv = labels_view(self.labels@);
        let mut rendered = String::new();
        write_header(&mut rendered, self);
        let ghost after_header = rendered@;
        let mut i: usize = 0;
        proof {
            assert(lv.subrange(0, 0) =~= Seq::<SpecLabel>::empty());
            assert(rendered@ =~= after_header + labels_text(lv.subrange(0, 0), fv));
        }
        while i < self.labels.len()
            invariant
                all_wf(files@),
                fv == files_view(files@),
                lv == labels_view(self.labels@),
                lv.len() == self.labels@.len(),
                i <= self.labels@.len(),
                rendered@ == after_header + labels_text(lv.subrange(0, i as int), fv),
            decreases self.labels@.len() - i,
        {
            proof {
                assert(lv.subrange(0, i + 1).drop_last() =~= lv.subrange(0, i as int));
                assert(lv.subrange(0, i + 1).last() == self.labels@[i as int]@);
            }
            write_label(&mut rendered, &self.labels[i], files);
            assert(rendered@ =~= after_header + labels_text(lv.subrange(0, i + 1), fv));
            i = i + 1;
        }
        proof {
            assert(lv.subrange(0, lv.len() as int) =~= lv);
        }
        let ghost after_labels = rendered@;
        let ghost nv = strings_view(self.notes@);
        let mut k: usize = 0;
        proof {
            assert(nv.subrange(0, 0) =~= Seq::<Seq<char>>::empty());
            assert(rendered@ =~= after_labels + notes_text(nv.subrange(0, 0)));
        }
        while k < self.notes.len()
            invariant
                nv == strings_view(self.notes@),
                nv.len() == self.notes@.len(),
                k <= self.notes@.len(),
                rendered@ == after_labels + notes_text(nv.subrange(0, k as int)),
            decreases self.notes@.len() - k,
        {
            proof {
                assert(nv.subrange(0, k + 1).drop_last() =~= nv.subrange(0, k as int));
                assert(nv.subrange(0, k + 1).last() == self.notes@[k as int]@);
            }
            push_str(&mut rendered, "   = note: ");
            push_str(&mut rendered, self.notes[k].as_str());
            push_str(&mut rendered, "\n");
            assert(rendered@ =~= after_labels + notes_text(nv.subrange(0, k + 1)));
            k = k + 1;
        }
        proof {
            assert(nv.subrange(0, nv.len() as int) =~= nv);
        }
        assert(rendered@ =~= diagnostic_text(self@, fv));
        rendered
    }
}

} // verus!
