use vstd::prelude::*;

use crate::protocol::{Cell, QueryResult};
use crate::sql::ast::strings_view;
use crate::text::{
    bytes_lt, chars_vec, compare_bytes, decimal, digit_char, lemma_bytes_lt_asymmetric,
    lemma_bytes_lt_irreflexive, lemma_bytes_lt_total, pad_left, push_char, push_decimal,
    push_repeat, push_str, repeat_char, string_from,
};
use vstd::string::{StrSliceExecFns, StringSliceAdditionalSpecFns};
use vstd::utf8::encode_utf8;

verus! {

// ---------------------------------------------------------------------------
// Formats.
// ---------------------------------------------------------------------------

#[derive(Debug, Clone, Copy, PartialEq, Eq, Structural)]
pub enum OutputFormat {
    Table,
    Json,
    Csv,
}

/// The format a name selects, if any.
pub open spec fn spec_format(name: Seq<char>) -> Option<OutputFormat> {
    if name == "table"@ {
        Some(OutputFormat::Table)
    } else if name == "json"@ {
        Some(OutputFormat::Json)
    } else if name == "csv"@ {
        Some(OutputFormat::Csv)
    } else {
        None
    }
}

pub open spec fn unknown_format_message(name: Seq<char>) -> Seq<char> {
    "error: unknown format '"@ + name + "' (expected table, json or csv)"@
}

fn parse_format(name: &str) -> (r: Option<OutputFormat>)
    ensures
        r == spec_format(name@),
{
    let s = name.to_owned();
    if s == "table".to_owned() {
        Some(OutputFormat::Table)
    } else if s == "json".to_owned() {
        Some(OutputFormat::Json)
    } else if s == "csv".to_owned() {
        Some(OutputFormat::Csv)
    } else {
        None
    }
}

/// Accepts `table`, `json` and `csv`; any other name is an error that names it.
pub fn validate_format(name: &str) -> (r: Result<(), String>)
    ensures
        match r {
            Ok(()) => spec_format(name@) is Some,
            Err(message) => spec_format(name@) is None && message@ == unknown_format_message(
                name@,
            ),
        },
{
    match parse_format(name) {
        Some(_) => Ok(()),
        None => {
            let mut message = "error: unknown format '".to_owned();
            push_str(&mut message, name);
            push_str(&mut message, "' (expected table, json or csv)");
            Err(message)
        },
    }
}

// ---------------------------------------------------------------------------
// Cell text.
// ---------------------------------------------------------------------------

pub open spec fn int_text(v: i128) -> Seq<char> {
    if v < 0 {
        seq!['-'] + decimal((-v) as nat)
    } else {
        decimal(v as nat)
    }
}

/// The text a cell shows: a string as it is, any other value as JSON.
pub open spec fn cell_text(c: Cell) -> Seq<char> {
    match c {
        Cell::Null => "null"@,
        Cell::Bool(b) => if b {
            "true"@
        } else {
            "false"@
        },
        Cell::Integer(v) => int_text(v),
        Cell::Number(t) => t@,
        Cell::Text(s) => s@,
        Cell::Json(t) => t@,
    }
}

pub open spec fn is_numeric(c: Cell) -> bool {
    c is Integer || c is Number
}

pub open spec fn rows_view(v: Seq<Vec<Cell>>) -> Seq<Seq<Cell>> {
    v.map_values(|r: Vec<Cell>| r@)
}

/// The cell of column `c`, when the row has one.
pub open spec fn text_at(row: Seq<Cell>, c: int) -> Seq<char> {
    if 0 <= c < row.len() {
        cell_text(row[c])
    } else {
        Seq::empty()
    }
}

/// Parts joined by a separator.
pub open spec fn join_with(parts: Seq<Seq<char>>, sep: Seq<char>) -> Seq<char>
    decreases parts.len(),
{
    if parts.len() == 0 {
        Seq::empty()
    } else if parts.len() == 1 {
        parts[0]
    } else {
        join_with(parts.drop_last(), sep) + sep + parts.last()
    }
}

fn push_int(out: &mut String, v: i128)
    ensures
        final(out)@ == old(out)@ + int_text(v),
{
    if v < 0 {
        push_char(out, '-');
        let m: u128 = if v == i128::MIN {
            170141183460469231731687303715884105728u128
        } else {
            (-v) as u128
        };
        push_decimal(out, m);
    } else {
        push_decimal(out, v as u128);
    }
}

fn push_cell_text(out: &mut String, c: &Cell)
    ensures
        final(out)@ == old(out)@ + cell_text(*c),
{
    match c {
        Cell::Null => push_str(out, "null"),
        Cell::Bool(b) => {
            if *b {
                push_str(out, "true");
            } else {
                push_str(out, "false");
            }
        },
        Cell::Integer(v) => push_int(out, *v),
        Cell::Number(t) => push_str(out, t.as_str()),
        Cell::Text(s) => push_str(out, s.as_str()),
        Cell::Json(t) => push_str(out, t.as_str()),
    }
}

fn text_of(row: &Vec<Cell>, c: usize) -> (s: String)
    ensures
        s@ == text_at(row@, c as int),
{
    let mut s = String::new();
    if c < row.len() {
        push_cell_text(&mut s, &row[c]);
    }
    s
}


proof fn lemma_join_step(parts: Seq<Seq<char>>, sep: Seq<char>, c: int)
    requires
        0 <= c < parts.len(),
    ensures
        join_with(parts.subrange(0, c + 1), sep) == if c == 0 {
            parts[0]
        } else {
            join_with(parts.subrange(0, c), sep) + sep + parts[c]
        },
{
    assert(parts.subrange(0, c + 1).drop_last() =~= parts.subrange(0, c));
    assert(parts.subrange(0, c + 1).last() == parts[c]);
    assert(parts.subrange(0, c + 1)[0] == parts[0]);
}

// ---------------------------------------------------------------------------
// Tables.
// ---------------------------------------------------------------------------

/// A cell's text as a table shows it: longer than 60 characters, it is cut to 57 and
/// followed by `...`.
pub open spec fn shown(s: Seq<char>) -> Seq<char> {
    if s.len() > 60 {
        s.subrange(0, 57) + "..."@
    } else {
        s
    }
}

/// The width of column `c`: its header or its widest shown cell.
pub open spec fn column_width(header: Seq<char>, rows: Seq<Seq<Cell>>, c: int) -> nat
    decreases rows.len(),
{
    if rows.len() == 0 {
        header.len()
    } else {
        let w = column_width(header, rows.drop_last(), c);
        let x = shown(text_at(rows.last(), c)).len();
        if x > w {
            x
        } else {
            w
        }
    }
}

pub open spec fn pad_right(s: Seq<char>, width: nat) -> Seq<char> {
    if s.len() < width {
        s + repeat_char(' ', (width - s.len()) as nat)
    } else {
        s
    }
}

/// A cell in its column: numbers to the right, anything else to the left.
pub open spec fn aligned(row: Seq<Cell>, c: int, width: nat) -> Seq<char> {
    let t = shown(text_at(row, c));
    if 0 <= c < row.len() && is_numeric(row[c]) {
        pad_left(t, width)
    } else {
        pad_right(t, width)
    }
}

pub open spec fn table_widths(columns: Seq<Seq<char>>, rows: Seq<Seq<Cell>>) -> Seq<nat> {
    Seq::new(columns.len(), |c: int| column_width(columns[c], rows, c))
}

pub open spec fn header_line(columns: Seq<Seq<char>>, widths: Seq<nat>) -> Seq<char> {
    join_with(Seq::new(columns.len(), |c: int| pad_right(columns[c], widths[c])), "  "@) + "\n"@
}

pub open spec fn rule_line(widths: Seq<nat>) -> Seq<char> {
    join_with(Seq::new(widths.len(), |c: int| repeat_char('-', widths[c])), "  "@) + "\n"@
}

pub open spec fn row_line(row: Seq<Cell>, widths: Seq<nat>) -> Seq<char> {
    join_with(Seq::new(widths.len(), |c: int| aligned(row, c, widths[c])), "  "@) + "\n"@
}

pub open spec fn row_lines(rows: Seq<Seq<Cell>>, widths: Seq<nat>) -> Seq<char>
    decreases rows.len(),
{
    if rows.len() == 0 {
        Seq::empty()
    } else {
        row_lines(rows.drop_last(), widths) + row_line(rows.last(), widths)
    }
}

/// A header line, a rule of dashes, then one line per row, columns two spaces apart;
/// nothing at all when there are no columns.
pub open spec fn table_text(columns: Seq<Seq<char>>, rows: Seq<Seq<Cell>>) -> Seq<char> {
    if columns.len() == 0 {
        Seq::empty()
    } else {
        let widths = table_widths(columns, rows);
        header_line(columns, widths) + rule_line(widths) + row_lines(rows, widths)
    }
}

fn shown_text(s: String) -> (r: String)
    ensures
        r@ == shown(s@),
{
    let n = s.as_str().unicode_len();
    if n > 60 {
        let v = chars_vec(s.as_str());
        let mut r = string_from(&v, 0, 57);
        push_str(&mut r, "...");
        r
    } else {
        s
    }
}

fn shown_len(row: &Vec<Cell>, c: usize) -> (n: usize)
    ensures
        n == shown(text_at(row@, c as int)).len(),
{
    let t = shown_text(text_of(row, c));
    t.as_str().unicode_len()
}

fn widths_of(columns: &Vec<String>, rows: &Vec<Vec<Cell>>) -> (ws: Vec<usize>)
    ensures
        ws@.len() == columns@.len(),
        forall|c: int|
            0 <= c < columns@.len() ==> #[trigger] ws@[c] == column_width(
                columns@[c]@,
                rows_view(rows@),
                c,
            ),
{
    let ghost rv = rows_view(rows@);
    let mut ws: Vec<usize> = Vec::new();
    let mut c: usize = 0;
    while c < columns.len()
        invariant
            rv == rows_view(rows@),
            c <= columns@.len(),
            ws@.len() == c,
            forall|k: int|
                0 <= k < c ==> #[trigger] ws@[k] == column_width(columns@[k]@, rv, k),
        decreases columns@.len() - c,
    {
        let mut w = columns[c].as_str().unicode_len();
        let mut r: usize = 0;
        proof {
            assert(rv.subrange(0, 0) =~= Seq::<Seq<Cell>>::empty());
        }
        while r < rows.len()
            invariant
                rv == rows_view(rows@),
                c < columns@.len(),
                r <= rows@.len(),
                w == column_width(columns@[c as int]@, rv.subrange(0, r as int), c as int),
            decreases rows@.len() - r,
        {
            let x = shown_len(&rows[r], c);
            proof {
                assert(rv.subrange(0, r + 1).drop_last() =~= rv.subrange(0, r as int));
                assert(rv.subrange(0, r + 1).last() == rows@[r as int]@);
            }
            if x > w {
                w = x;
            }
            r = r + 1;
        }
        proof {
            assert(rv.subrange(0, rv.len() as int) =~= rv);
        }
        ws.push(w);
        c = c + 1;
    }
    ws
}

spec fn nat_widths(ws: Seq<usize>) -> Seq<nat> {
    Seq::new(ws.len(), |c: int| ws[c] as nat)
}

fn push_padded_right(out: &mut String, s: &str, width: usize)
    ensures
        final(out)@ == old(out)@ + pad_right(s@, width as nat),
{
    let ghost start = out@;
    let n = s.unicode_len();
    push_str(out, s);
    if n < width {
        push_repeat(out, ' ', width - n);
    }
    assert(out@ =~= start + pad_right(s@, width as nat));
}

fn push_header_line(out: &mut String, columns: &Vec<String>, ws: &Vec<usize>)
    requires
        ws@.len() == columns@.len(),
    ensures
        final(out)@ == old(out)@ + header_line(strings_view(columns@), nat_widths(ws@)),
{
    let ghost start = out@;
    let ghost parts = Seq::new(
        columns@.len(),
        |c: int| pad_right(strings_view(columns@)[c], nat_widths(ws@)[c]),
    );
    let mut c: usize = 0;
    proof {
        assert(parts.subrange(0, 0) =~= Seq::<Seq<char>>::empty());
    }
    while c < columns.len()
        invariant
            ws@.len() == columns@.len(),
            parts == Seq::new(
                columns@.len(),
                |c: int| pad_right(strings_view(columns@)[c], nat_widths(ws@)[c]),
            ),
            c <= columns@.len(),
            out@ == start + join_with(parts.subrange(0, c as int), "  "@),
        decreases columns@.len() - c,
    {
        proof {
            lemma_join_step(parts, "  "@, c as int);
        }
        if c > 0 {
            push_str(out, "  ");
        }
        push_padded_right(out, columns[c].as_str(), ws[c]);
        assert(out@ =~= start + join_with(parts.subrange(0, c + 1), "  "@));
        c = c + 1;
    }
    proof {
        assert(parts.subrange(0, parts.len() as int) =~= parts);
    }
    push_str(out, "\n");
}

fn push_rule_line(out: &mut String, ws: &Vec<usize>)
    ensures
        final(out)@ == old(out)@ + rule_line(nat_widths(ws@)),
{
    let ghost start = out@;
    let ghost parts = Seq::new(ws@.len(), |c: int| repeat_char('-', nat_widths(ws@)[c]));
    let mut c: usize = 0;
    proof {
        assert(parts.subrange(0, 0) =~= Seq::<Seq<char>>::empty());
    }
    while c < ws.len()
        invariant
            parts == Seq::new(ws@.len(), |c: int| repeat_char('-', nat_widths(ws@)[c])),
            c <= ws@.len(),
            out@ == start + join_with(parts.subrange(0, c as int), "  "@),
        decreases ws@.len() - c,
    {
        proof {
            lemma_join_step(parts, "  "@, c as int);
        }
        if c > 0 {
            push_str(out, "  ");
        }
        push_repeat(out, '-', ws[c]);
        assert(out@ =~= start + join_with(parts.subrange(0, c + 1), "  "@));
        c = c + 1;
    }
    proof {
        assert(parts.subrange(0, parts.len() as int) =~= parts);
    }
    push_str(out, "\n");
}

fn push_aligned(out: &mut String, row: &Vec<Cell>, c: usize, width: usize)
    ensures
        final(out)@ == old(out)@ + aligned(row@, c as int, width as nat),
{
    let ghost start = out@;
    let t = shown_text(text_of(row, c));
    let n = t.as_str().unicode_len();
    let numeric = c < row.len() && match &row[c] {
        Cell::Integer(_) => true,
        Cell::Number(_) => true,
        _ => false,
    };
    if numeric {
        if n < width {
            push_repeat(out, ' ', width - n);
        }
        push_str(out, t.as_str());
    } else {
        push_str(out, t.as_str());
        if n < width {
            push_repeat(out, ' ', width - n);
        }
    }
    assert(out@ =~= start + aligned(row@, c as int, width as nat));
}

fn push_row_line(out: &mut String, row: &Vec<Cell>, ws: &Vec<usize>)
    ensures
        final(out)@ == old(out)@ + row_line(row@, nat_widths(ws@)),
{
    let ghost start = out@;
    let ghost parts = Seq::new(ws@.len(), |c: int| aligned(row@, c, nat_widths(ws@)[c]));
    let mut c: usize = 0;
    proof {
        assert(parts.subrange(0, 0) =~= Seq::<Seq<char>>::empty());
    }
    while c < ws.len()
        invariant
            parts == Seq::new(ws@.len(), |c: int| aligned(row@, c, nat_widths(ws@)[c])),
            c <= ws@.len(),
            out@ == start + join_with(parts.subrange(0, c as int), "  "@),
        decreases ws@.len() - c,
    {
        proof {
            lemma_join_step(parts, "  "@, c as int);
        }
        if c > 0 {
            push_str(out, "  ");
        }
        push_aligned(out, row, c, ws[c]);
        assert(out@ =~= start + join_with(parts.subrange(0, c + 1), "  "@));
        c = c + 1;
    }
    proof {
        assert(parts.subrange(0, parts.len() as int) =~= parts);
    }
    push_str(out, "\n");
}

/// The result as an aligned text table.
pub fn render_table(result: &QueryResult) -> (s: String)
    ensures
        s@ == table_text(strings_view(result.columns@), rows_view(result.rows@)),
{
    let mut out = String::new();
    if result.columns.len() == 0 {
        return out;
    }
    let ws = widths_of(&result.columns, &result.rows);
    let ghost nw = nat_widths(ws@);
    assert(nw =~= table_widths(strings_view(result.columns@), rows_view(result.rows@)));
    push_header_line(&mut out, &result.columns, &ws);
    push_rule_line(&mut out, &ws);
    let ghost head = out@;
    let ghost rv = rows_view(result.rows@);
    let mut r: usize = 0;
    proof {
        assert(rv.subrange(0, 0) =~= Seq::<Seq<Cell>>::empty());
        assert(out@ =~= head + row_lines(rv.subrange(0, 0), nw));
    }
    while r < result.rows.len()
        invariant
            rv == rows_view(result.rows@),
            nw == nat_widths(ws@),
            r <= result.rows@.len(),
            out@ == head + row_lines(rv.subrange(0, r as int), nw),
        decreases result.rows@.len() - r,
    {
        proof {
            assert(rv.subrange(0, r + 1).drop_last() =~= rv.subrange(0, r as int));
            assert(rv.subrange(0, r + 1).last() == result.rows@[r as int]@);
        }
        push_row_line(&mut out, &result.rows[r], &ws);
        assert(out@ =~= head + row_lines(rv.subrange(0, r + 1), nw));
        r = r + 1;
    }
    proof {
        assert(rv.subrange(0, rv.len() as int) =~= rv);
    }
    out
}


// ---------------------------------------------------------------------------
// CSV.
// ---------------------------------------------------------------------------

pub open spec fn csv_special(c: char) -> bool {
    c == ',' || c == '"' || c == '\n' || c == '\r'
}

pub open spec fn double_quotes(s: Seq<char>) -> Seq<char>
    decreases s.len(),
{
    if s.len() == 0 {
        Seq::empty()
    } else {
        double_quotes(s.drop_last()) + if s.last() == '"' {
            seq!['"', '"']
        } else {
            seq![s.last()]
        }
    }
}

/// A CSV field: in double quotes, with inner quotes doubled, when it holds a comma, a
/// quote or a line break; otherwise as it is.
pub open spec fn csv_field(s: Seq<char>) -> Seq<char> {
    if exists|i: int| 0 <= i < s.len() && csv_special(#[trigger] s[i]) {
        seq!['"'] + double_quotes(s) + seq!['"']
    } else {
        s
    }
}

pub open spec fn csv_line(fields: Seq<Seq<char>>) -> Seq<char> {
    join_with(fields.map_values(|f: Seq<char>| csv_field(f)), ","@) + "\n"@
}

pub open spec fn csv_row_fields(row: Seq<Cell>, n: nat) -> Seq<Seq<char>> {
    Seq::new(n, |c: int| text_at(row, c))
}

pub open spec fn csv_rows(rows: Seq<Seq<Cell>>, n: nat) -> Seq<char>
    decreases rows.len(),
{
    if rows.len() == 0 {
        Seq::empty()
    } else {
        csv_rows(rows.drop_last(), n) + csv_line(csv_row_fields(rows.last(), n))
    }
}

/// A header line and one line per row; nothing at all when there are no columns.
pub open spec fn csv_text(columns: Seq<Seq<char>>, rows: Seq<Seq<Cell>>) -> Seq<char> {
    if columns.len() == 0 {
        Seq::empty()
    } else {
        csv_line(columns) + csv_rows(rows, columns.len())
    }
}

fn push_csv_field(out: &mut String, field: &str)
    ensures
        final(out)@ == old(out)@ + csv_field(field@),
{
    let ghost start = out@;
    let v = chars_vec(field);
    let mut special = false;
    let mut i: usize = 0;
    while i < v.len()
        invariant
            v@ == field@,
            i <= v@.len(),
            special == exists|k: int| 0 <= k < i && csv_special(#[trigger] v@[k]),
        decreases v@.len() - i,
    {
        let c = v[i];
        if c == ',' || c == '"' || c == '\n' || c == '\r' {
            special = true;
        }
        proof {
            if csv_special(v@[i as int]) {
                assert(exists|k: int| 0 <= k < i + 1 && csv_special(#[trigger] v@[k]));
            } else {
                if exists|k: int| 0 <= k < i + 1 && csv_special(#[trigger] v@[k]) {
                    let k = choose|k: int| 0 <= k < i + 1 && csv_special(#[trigger] v@[k]);
                    assert(k < i);
                }
            }
        }
        i = i + 1;
    }
    if special {
        push_char(out, '"');
        let ghost mid = out@;
        let mut j: usize = 0;
        proof {
            assert(v@.subrange(0, 0) =~= Seq::<char>::empty());
        }
        while j < v.len()
            invariant
                v@ == field@,
                j <= v@.len(),
                out@ == mid + double_quotes(v@.subrange(0, j as int)),
            decreases v@.len() - j,
        {
            proof {
                assert(v@.subrange(0, j + 1).drop_last() =~= v@.subrange(0, j as int));
                assert(v@.subrange(0, j + 1).last() == v@[j as int]);
            }
            let ghost before = out@;
            if v[j] == '"' {
                push_char(out, '"');
                push_char(out, '"');
                assert(out@ =~= before + seq!['"', '"']);
            } else {
                push_char(out, v[j]);
                assert(out@ =~= before + seq![v@[j as int]]);
            }
            assert(out@ =~= mid + double_quotes(v@.subrange(0, j + 1)));
            j = j + 1;
        }
        proof {
            assert(v@.subrange(0, v@.len() as int) =~= v@);
        }
        push_char(out, '"');
        assert(out@ =~= start + csv_field(field@));
    } else {
        push_str(out, field);
    }
}

fn push_csv_line(out: &mut String, fields: &Vec<String>)
    ensures
        final(out)@ == old(out)@ + csv_line(strings_view(fields@)),
{
    let ghost start = out@;
    let ghost parts = strings_view(fields@).map_values(|f: Seq<char>| csv_field(f));
    let mut c: usize = 0;
    proof {
        assert(parts.subrange(0, 0) =~= Seq::<Seq<char>>::empty());
    }
    while c < fields.len()
        invariant
            parts == strings_view(fields@).map_values(|f: Seq<char>| csv_field(f)),
            parts.len() == fields@.len(),
            c <= fields@.len(),
            out@ == start + join_with(parts.subrange(0, c as int), ","@),
        decreases fields@.len() - c,
    {
        proof {
            lemma_join_step(parts, ","@, c as int);
        }
        if c > 0 {
            push_str(out, ",");
        }
        push_csv_field(out, fields[c].as_str());
        assert(out@ =~= start + join_with(parts.subrange(0, c + 1), ","@));
        c = c + 1;
    }
    proof {
        assert(parts.subrange(0, parts.len() as int) =~= parts);
    }
    push_str(out, "\n");
}

fn row_texts(row: &Vec<Cell>, n: usize) -> (fields: Vec<String>)
    ensures
        strings_view(fields@) == csv_row_fields(row@, n as nat),
{
    let mut fields: Vec<String> = Vec::new();
    let mut c: usize = 0;
    while c < n
        invariant
            c <= n,
            strings_view(fields@) == csv_row_fields(row@, c as nat),
        decreases n - c,
    {
        let t = text_of(row, c);
        let ghost before = fields@;
        fields.push(t);
        assert(strings_view(fields@) =~= strings_view(before).push(t@));
        assert(strings_view(fields@) =~= csv_row_fields(row@, (c + 1) as nat));
        c = c + 1;
    }
    fields
}

/// The result as CSV.
pub fn render_csv(result: &QueryResult) -> (s: String)
    ensures
        s@ == csv_text(strings_view(result.columns@), rows_view(result.rows@)),
{
    let mut out = String::new();
    if result.columns.len() == 0 {
        return out;
    }
    push_csv_line(&mut out, &result.columns);
    let ghost head = out@;
    let ghost rv = rows_view(result.rows@);
    let n = result.columns.len();
    let mut r: usize = 0;
    proof {
        assert(rv.subrange(0, 0) =~= Seq::<Seq<Cell>>::empty());
        assert(out@ =~= head + csv_rows(rv.subrange(0, 0), n as nat));
    }
    while r < result.rows.len()
        invariant
            rv == rows_view(result.rows@),
            n == result.columns@.len(),
            r <= result.rows@.len(),
            out@ == head + csv_rows(rv.subrange(0, r as int), n as nat),
        decreases result.rows@.len() - r,
    {
        proof {
            assert(rv.subrange(0, r + 1).drop_last() =~= rv.subrange(0, r as int));
            assert(rv.subrange(0, r + 1).last() == result.rows@[r as int]@);
        }
        let fields = row_texts(&result.rows[r], n);
        push_csv_line(&mut out, &fields);
        assert(out@ =~= head + csv_rows(rv.subrange(0, r + 1), n as nat));
        r = r + 1;
    }
    proof {
        assert(rv.subrange(0, rv.len() as int) =~= rv);
    }
    out
}


// ---------------------------------------------------------------------------
// JSON.
// ---------------------------------------------------------------------------

/// A lowercase hexadecimal digit.
pub open spec fn hex_digit(d: int) -> char {
    if d < 10 {
        (48 + d) as char
    } else {
        (87 + d) as char
    }
}

/// How a character is written inside a JSON string: `"` and `\` after a backslash;
/// backspace, form feed, line feed, carriage return and tab as `\b`, `\f`, `\n`, `\r`,
/// `\t`; every other character below U+0020 as `\u00` and two lowercase hex digits; any
/// other character as itself.
pub open spec fn json_escape(c: char) -> Seq<char> {
    let u = c as u32;
    if c == '"' {
        seq!['\\', '"']
    } else if c == '\\' {
        seq!['\\', '\\']
    } else if u == 8 {
        seq!['\\', 'b']
    } else if u == 12 {
        seq!['\\', 'f']
    } else if u == 10 {
        seq!['\\', 'n']
    } else if u == 13 {
        seq!['\\', 'r']
    } else if u == 9 {
        seq!['\\', 't']
    } else if u < 32 {
        seq!['\\', 'u', '0', '0', hex_digit((u / 16) as int), hex_digit((u % 16) as int)]
    } else {
        seq![c]
    }
}

/// Each character of `s` as it is written inside a JSON string.
pub open spec fn json_escaped(s: Seq<char>) -> Seq<char>
    decreases s.len(),
{
    if s.len() == 0 {
        Seq::empty()
    } else {
        json_escaped(s.drop_last()) + json_escape(s.last())
    }
}

/// The JSON string literal for a string: its escaped characters between double quotes.
pub open spec fn json_quoted(s: Seq<char>) -> Seq<char> {
    seq!['"'] + json_escaped(s) + seq!['"']
}

/// A string as a JSON string literal: `serde_json::to_string` on the `&str`, whose
/// escaping (`format_escaped_str_contents` with the `ESCAPE` table and
/// `write_char_escape`) the contract states.
///
/// Serializing a string into memory cannot fail in `serde_json` (the only error source is
/// the writer, and writing into a `Vec` does not fail).
#[verifier::external_body]
fn json_quote(s: &str) -> (r: String)
    ensures
        r@ == json_quoted(s@),
{
    match serde_json::to_string(s) {
        Ok(text) => text,
        Err(_) => String::new(),
    }
}

/// A cell as a JSON value.
pub open spec fn json_value(c: Cell) -> Seq<char> {
    match c {
        Cell::Text(s) => json_quoted(s@),
        _ => cell_text(c),
    }
}

pub open spec fn json_value_at(row: Seq<Cell>, c: int) -> Seq<char> {
    if 0 <= c < row.len() {
        json_value(row[c])
    } else {
        "null"@
    }
}

/// `k` inserted into keys kept in increasing byte order, unless it is already there.
pub open spec fn insert_key(keys: Seq<Seq<char>>, k: Seq<char>) -> Seq<Seq<char>>
    decreases keys.len(),
{
    if keys.len() == 0 {
        seq![k]
    } else if keys[0] == k {
        keys
    } else if bytes_lt(encode_utf8(k), encode_utf8(keys[0])) {
        seq![k] + keys
    } else {
        seq![keys[0]] + insert_key(keys.drop_first(), k)
    }
}

/// The distinct column names in increasing byte order, as a JSON object holds its keys.
pub open spec fn sorted_keys(columns: Seq<Seq<char>>) -> Seq<Seq<char>>
    decreases columns.len(),
{
    if columns.len() == 0 {
        Seq::empty()
    } else {
        insert_key(sorted_keys(columns.drop_last()), columns.last())
    }
}

/// The last column named `k` (a later column of the same name replaces an earlier one).
pub open spec fn last_index(columns: Seq<Seq<char>>, k: Seq<char>) -> int
    decreases columns.len(),
{
    if columns.len() == 0 {
        -1
    } else if columns.last() == k {
        columns.len() - 1
    } else {
        last_index(columns.drop_last(), k)
    }
}

pub open spec fn json_member(columns: Seq<Seq<char>>, row: Seq<Cell>, k: Seq<char>) -> Seq<char> {
    json_quoted(k) + ":"@ + json_value_at(row, last_index(columns, k))
}

/// A row as a JSON object, keys in byte order.
pub open spec fn json_object(columns: Seq<Seq<char>>, row: Seq<Cell>) -> Seq<char> {
    "{"@ + join_with(
        sorted_keys(columns).map_values(|k: Seq<char>| json_member(columns, row, k)),
        ","@,
    ) + "}"@
}

/// The rows as a JSON array of objects, then a newline.
pub open spec fn json_text(columns: Seq<Seq<char>>, rows: Seq<Seq<Cell>>) -> Seq<char> {
    "["@ + join_with(rows.map_values(|r: Seq<Cell>| json_object(columns, r)), ","@) + "]"@
        + "\n"@
}

/// In JSON output only text cells are strings: a text cell is its text quoted as a JSON
/// string, and every other cell is the same text as in table and CSV output, so an
/// integer is its bare decimal and a number its bare JSON number text.
pub proof fn lemma_json_cell_values(c: Cell)
    ensures
        c matches Cell::Text(s) ==> json_value(c) == json_quoted(s@),
        !(c is Text) ==> json_value(c) == cell_text(c),
        c matches Cell::Number(t) ==> json_value(c) == t@,
        c matches Cell::Integer(v) ==> json_value(c) == int_text(v) && json_value(c).len() > 0
            && json_value(c)[0] != '"',
        c matches Cell::Bool(b) ==> json_value(c) == if b {
            "true"@
        } else {
            "false"@
        },
        c is Null ==> json_value(c) == "null"@,
{
    if let Cell::Integer(v) = c {
        if v >= 0 {
            lemma_decimal_starts_with_digit(v as nat);
        }
    }
}

proof fn lemma_decimal_starts_with_digit(n: nat)
    ensures
        decimal(n).len() > 0,
        decimal(n)[0] != '"',
    decreases n,
{
    if n < 10 {
        assert(decimal(n)[0] == digit_char(n));
        assert((48 + n) as u8 != 34u8);
    } else {
        lemma_decimal_starts_with_digit(n / 10);
        assert(decimal(n)[0] == decimal(n / 10)[0]);
    }
}

/// The JSON output of a result with one column and one row is a one-element array of a
/// one-member object: the column's name as a JSON string, `:`, and the cell's JSON value
/// (bare for numbers, quoted only for text).
pub proof fn lemma_json_single_cell(column: Seq<char>, cell: Cell)
    ensures
        json_text(seq![column], seq![seq![cell]]) == "[{"@ + json_quoted(column) + ":"@
            + json_value(cell) + "}]\n"@,
{
    let columns = seq![column];
    assert(columns.drop_last() =~= Seq::<Seq<char>>::empty());
    assert(sorted_keys(Seq::<Seq<char>>::empty()) == Seq::<Seq<char>>::empty());
    assert(columns.last() == column);
    assert(insert_key(Seq::<Seq<char>>::empty(), column) == seq![column]);
    assert(sorted_keys(columns) == seq![column]);
    assert(last_index(columns, column) == 0);
    let members = sorted_keys(columns).map_values(|k: Seq<char>| json_member(columns, seq![cell], k));
    assert(members =~= seq![json_member(columns, seq![cell], column)]);
    let objs = seq![seq![cell]].map_values(|r: Seq<Cell>| json_object(columns, r));
    assert(objs =~= seq![json_object(columns, seq![cell])]);
    reveal_strlit("[{");
    reveal_strlit("[");
    reveal_strlit("{");
    reveal_strlit("}]\n");
    reveal_strlit("}");
    reveal_strlit("]");
    reveal_strlit("\n");
    assert(json_text(columns, seq![seq![cell]]) =~= "[{"@ + json_quoted(column) + ":"@ + json_value(
        cell,
    ) + "}]\n"@);
}

proof fn lemma_insert_key_skip(keys: Seq<Seq<char>>, k: Seq<char>, j: int)
    requires
        0 <= j <= keys.len(),
        forall|i: int|
            0 <= i < j ==> keys[i] != k && !bytes_lt(encode_utf8(k), encode_utf8(#[trigger] keys[i])),
    ensures
        insert_key(keys, k) == keys.subrange(0, j) + insert_key(keys.subrange(j, keys.len() as int), k),
    decreases j,
{
    if j == 0 {
        assert(keys.subrange(0, 0) + keys.subrange(0, keys.len() as int) =~= keys.subrange(
            0,
            keys.len() as int,
        ));
        assert(keys.subrange(0, keys.len() as int) =~= keys);
        assert(Seq::<Seq<char>>::empty() + insert_key(keys, k) =~= insert_key(keys, k));
        assert(keys.subrange(0, 0) =~= Seq::<Seq<char>>::empty());
    } else {
        let rest = keys.drop_first();
        assert forall|i: int| 0 <= i < j - 1 implies rest[i] != k && !bytes_lt(
            encode_utf8(k),
            encode_utf8(#[trigger] rest[i]),
        ) by {
            assert(rest[i] == keys[i + 1]);
        }
        lemma_insert_key_skip(rest, k, j - 1);
        assert(keys[0] != k);
        assert(rest.subrange(j - 1, rest.len() as int) =~= keys.subrange(j, keys.len() as int));
        assert(seq![keys[0]] + rest.subrange(0, j - 1) =~= keys.subrange(0, j));
        assert(seq![keys[0]] + (rest.subrange(0, j - 1) + insert_key(
            keys.subrange(j, keys.len() as int),
            k,
        )) =~= keys.subrange(0, j) + insert_key(keys.subrange(j, keys.len() as int), k));
    }
}

fn insert_key_exec(keys: &mut Vec<String>, k: &String)
    ensures
        strings_view(final(keys)@) == insert_key(strings_view(old(keys)@), k@),
{
    let ghost kv = strings_view(keys@);
    let kb = k.as_str().as_bytes();
    let mut j: usize = 0;
    while j < keys.len()
        invariant
            kv == strings_view(keys@),
            kv == strings_view(old(keys)@),
            kv.len() == keys@.len(),
            kb@ == encode_utf8(k@),
            j <= keys@.len(),
            forall|i: int|
                0 <= i < j ==> kv[i] != k@ && !bytes_lt(encode_utf8(k@), encode_utf8(#[trigger] kv[i])),
        decreases keys@.len() - j,
    {
        if keys[j] == *k {
            proof {
                lemma_insert_key_skip(kv, k@, j as int);
                assert(kv.subrange(j as int, kv.len() as int)[0] == k@);
                assert(kv.subrange(0, j as int) + kv.subrange(j as int, kv.len() as int) =~= kv);
            }
            return;
        }
        let c = compare_bytes(kb, keys[j].as_str().as_bytes());
        if c < 0 {
            proof {
                lemma_insert_key_skip(kv, k@, j as int);
                assert(kv.subrange(j as int, kv.len() as int)[0] == kv[j as int]);
            }
            let ghost before = keys@;
            keys.insert(j, k.clone());
            proof {
                assert(strings_view(keys@) =~= kv.subrange(0, j as int) + (seq![k@]
                    + kv.subrange(j as int, kv.len() as int)));
            }
            return;
        }
        j = j + 1;
    }
    proof {
        lemma_insert_key_skip(kv, k@, j as int);
        assert(kv.subrange(j as int, kv.len() as int) =~= Seq::<Seq<char>>::empty());
        assert(kv.subrange(0, j as int) =~= kv);
    }
    let ghost before = keys@;
    keys.push(k.clone());
    assert(strings_view(keys@) =~= kv + seq![k@]);
}

fn sorted_keys_exec(columns: &Vec<String>) -> (keys: Vec<String>)
    ensures
        strings_view(keys@) == sorted_keys(strings_view(columns@)),
{
    let ghost cv = strings_view(columns@);
    let mut keys: Vec<String> = Vec::new();
    let mut c: usize = 0;
    proof {
        assert(cv.subrange(0, 0) =~= Seq::<Seq<char>>::empty());
        assert(strings_view(keys@) =~= Seq::<Seq<char>>::empty());
    }
    while c < columns.len()
        invariant
            cv == strings_view(columns@),
            c <= columns@.len(),
            strings_view(keys@) == sorted_keys(cv.subrange(0, c as int)),
        decreases columns@.len() - c,
    {
        proof {
            assert(cv.subrange(0, c + 1).drop_last() =~= cv.subrange(0, c as int));
            assert(cv.subrange(0, c + 1).last() == columns@[c as int]@);
        }
        insert_key_exec(&mut keys, &columns[c]);
        c = c + 1;
    }
    proof {
        assert(cv.subrange(0, cv.len() as int) =~= cv);
    }
    keys
}

fn last_index_exec(columns: &Vec<String>, k: &String) -> (r: Option<usize>)
    ensures
        match r {
            Some(i) => i < columns@.len() && last_index(strings_view(columns@), k@) == i,
            None => last_index(strings_view(columns@), k@) == -1,
        },
{
    let ghost cv = strings_view(columns@);
    let mut j: usize = columns.len();
    proof {
        assert(cv.subrange(0, j as int) =~= cv);
    }
    while j > 0
        invariant
            cv == strings_view(columns@),
            j <= columns@.len(),
            last_index(cv, k@) == last_index(cv.subrange(0, j as int), k@),
        decreases j,
    {
        proof {
            assert(cv.subrange(0, j as int).drop_last() =~= cv.subrange(0, j - 1));
            assert(cv.subrange(0, j as int).last() == columns@[j - 1]@);
        }
        if columns[j - 1] == *k {
            return Some(j - 1);
        }
        j = j - 1;
    }
    None
}

fn push_json_value(out: &mut String, row: &Vec<Cell>, c: Option<usize>)
    ensures
        final(out)@ == old(out)@ + json_value_at(
            row@,
            match c {
                Some(i) => i as int,
                None => -1,
            },
        ),
{
    match c {
        Some(i) => {
            if i < row.len() {
                match &row[i] {
                    Cell::Text(s) => {
                        let q = json_quote(s.as_str());
                        push_str(out, q.as_str());
                    },
                    other => push_cell_text(out, other),
                }
            } else {
                push_str(out, "null");
            }
        },
        None => push_str(out, "null"),
    }
}

fn push_json_object(out: &mut String, columns: &Vec<String>, keys: &Vec<String>, row: &Vec<Cell>)
    requires
        strings_view(keys@) == sorted_keys(strings_view(columns@)),
    ensures
        final(out)@ == old(out)@ + json_object(strings_view(columns@), row@),
{
    let ghost cv = strings_view(columns@);
    let ghost parts = sorted_keys(cv).map_values(|k: Seq<char>| json_member(cv, row@, k));
    push_str(out, "{");
    let ghost start = out@;
    let mut i: usize = 0;
    proof {
        assert(parts.subrange(0, 0) =~= Seq::<Seq<char>>::empty());
    }
    while i < keys.len()
        invariant
            cv == strings_view(columns@),
            strings_view(keys@) == sorted_keys(cv),
            parts == sorted_keys(cv).map_values(|k: Seq<char>| json_member(cv, row@, k)),
            parts.len() == keys@.len(),
            i <= keys@.len(),
            out@ == start + join_with(parts.subrange(0, i as int), ","@),
        decreases keys@.len() - i,
    {
        proof {
            lemma_join_step(parts, ","@, i as int);
            assert(sorted_keys(cv)[i as int] == keys@[i as int]@);
        }
        let ghost before = out@;
        if i > 0 {
            push_str(out, ",");
        }
        let ghost mid = out@;
        let q = json_quote(keys[i].as_str());
        push_str(out, q.as_str());
        push_str(out, ":");
        let at = last_index_exec(columns, &keys[i]);
        push_json_value(out, row, at);
        assert(out@ =~= mid + json_member(cv, row@, keys@[i as int]@));
        assert(out@ =~= start + join_with(parts.subrange(0, i + 1), ","@));
        i = i + 1;
    }
    proof {
        assert(parts.subrange(0, parts.len() as int) =~= parts);
    }
    push_str(out, "}");
}

/// The result as a JSON array with one object per row.
pub fn render_json(result: &QueryResult) -> (s: String)
    ensures
        s@ == json_text(strings_view(result.columns@), rows_view(result.rows@)),
{
    let ghost cv = strings_view(result.columns@);
    let ghost rv = rows_view(result.rows@);
    let ghost parts = rv.map_values(|r: Seq<Cell>| json_object(cv, r));
    let keys = sorted_keys_exec(&result.columns);
    let mut out = String::new();
    push_str(&mut out, "[");
    let ghost start = out@;
    let mut r: usize = 0;
    proof {
        assert(parts.subrange(0, 0) =~= Seq::<Seq<char>>::empty());
    }
    while r < result.rows.len()
        invariant
            cv == strings_view(result.columns@),
            rv == rows_view(result.rows@),
            strings_view(keys@) == sorted_keys(cv),
            parts == rv.map_values(|r: Seq<Cell>| json_object(cv, r)),
            parts.len() == result.rows@.len(),
            r <= result.rows@.len(),
            out@ == start + join_with(parts.subrange(0, r as int), ","@),
        decreases result.rows@.len() - r,
    {
        proof {
            lemma_join_step(parts, ","@, r as int);
        }
        if r > 0 {
            push_str(&mut out, ",");
        }
        push_json_object(&mut out, &result.columns, &keys, &result.rows[r]);
        assert(out@ =~= start + join_with(parts.subrange(0, r + 1), ","@));
        r = r + 1;
    }
    proof {
        assert(parts.subrange(0, parts.len() as int) =~= parts);
    }
    push_str(&mut out, "]");
    push_str(&mut out, "\n");
    out
}

// ---------------------------------------------------------------------------
// Output.
// ---------------------------------------------------------------------------

/// The text of a result in a format.
pub open spec fn formatted(format: OutputFormat, result: QueryResult) -> Seq<char> {
    let columns = strings_view(result.columns@);
    let rows = rows_view(result.rows@);
    match format {
        OutputFormat::Table => table_text(columns, rows),
        OutputFormat::Json => json_text(columns, rows),
        OutputFormat::Csv => csv_text(columns, rows),
    }
}

/// Appends the UTF-8 text of the result, in the named format, to `output`; an unknown
/// format name leaves `output` as it was and is reported.
pub fn format_response(output: &mut Vec<u8>, format: &str, result: &QueryResult) -> (r: Result<
    (),
    String,
>)
    ensures
        match spec_format(format@) {
            Some(f) => r is Ok && final(output)@ == old(output)@ + encode_utf8(formatted(f, *result)),
            None => r matches Err(message) && message@ == unknown_format_message(format@)
                && final(output)@ == old(output)@,
        },
{
    let text = match parse_format(format) {
        Some(OutputFormat::Table) => render_table(result),
        Some(OutputFormat::Json) => render_json(result),
        Some(OutputFormat::Csv) => render_csv(result),
        None => {
            return validate_format(format);
        },
    };
    let mut bytes = text.as_str().as_bytes_vec();
    output.append(&mut bytes);
    Ok(())
}

} // verus!
