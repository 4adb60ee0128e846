use vstd::prelude::*;

use crate::text::{byte_char, bytes_chars, push_char};
use vstd::string::{StrSliceExecFns, StringSliceAdditionalSpecFns};

verus! {

/// A lexical token of the query language, with its byte span in the input.
#[derive(Debug, Clone, PartialEq, Eq)]
pub struct Token {
    pub kind: TokenKind,
    pub start: usize,
    pub end: usize,
}

#[derive(Debug, Clone, PartialEq, Eq)]
pub enum TokenKind {
    Select,
    Distinct,
    From,
    Group,
    Is,
    Join,
    On,
    Where,
    Having,
    Order,
    By,
    Limit,
    Asc,
    Desc,
    As,
    And,
    Or,
    Not,
    In,
    Null,
    True,
    False,
    Like,
    Between,
    Identifier(String),
    Integer(u64),
    String(String),
    Comma,
    Dot,
    LParen,
    RParen,
    Semicolon,
    Star,
    Eq,
    NotEq,
    Gt,
    Lt,
    Gte,
    Lte,
}

/// The mathematical model of a token kind: text payloads become character sequences.
pub enum SpecTokenKind {
    Select,
    Distinct,
    From,
    Group,
    Is,
    Join,
    On,
    Where,
    Having,
    Order,
    By,
    Limit,
    Asc,
    Desc,
    As,
    And,
    Or,
    Not,
    In,
    Null,
    True,
    False,
    Like,
    Between,
    Identifier(Seq<char>),
    Integer(u64),
    Str(Seq<char>),
    Comma,
    Dot,
    LParen,
    RParen,
    Semicolon,
    Star,
    Eq,
    NotEq,
    Gt,
    Lt,
    Gte,
    Lte,
}

pub struct SpecToken {
    pub kind: SpecTokenKind,
    pub start: int,
    pub end: int,
}

impl View for TokenKind {
    type V = SpecTokenKind;

    open spec fn view(&self) -> SpecTokenKind {
        match self {
            TokenKind::Select => SpecTokenKind::Select,
            TokenKind::Distinct => SpecTokenKind::Distinct,
            TokenKind::From => SpecTokenKind::From,
            TokenKind::Group => SpecTokenKind::Group,
            TokenKind::Is => SpecTokenKind::Is,
            TokenKind::Join => SpecTokenKind::Join,
            TokenKind::On => SpecTokenKind::On,
            TokenKind::Where => SpecTokenKind::Where,
            TokenKind::Having => SpecTokenKind::Having,
            TokenKind::Order => SpecTokenKind::Order,
            TokenKind::By => SpecTokenKind::By,
            TokenKind::Limit => SpecTokenKind::Limit,
            TokenKind::Asc => SpecTokenKind::Asc,
            TokenKind::Desc => SpecTokenKind::Desc,
            TokenKind::As => SpecTokenKind::As,
            TokenKind::And => SpecTokenKind::And,
            TokenKind::Or => SpecTokenKind::Or,
            TokenKind::Not => SpecTokenKind::Not,
            TokenKind::In => SpecTokenKind::In,
            TokenKind::Null => SpecTokenKind::Null,
            TokenKind::True => SpecTokenKind::True,
            TokenKind::False => SpecTokenKind::False,
            TokenKind::Like => SpecTokenKind::Like,
            TokenKind::Between => SpecTokenKind::Between,
            TokenKind::Identifier(s) => SpecTokenKind::Identifier(s@),
            TokenKind::Integer(v) => SpecTokenKind::Integer(*v),
            TokenKind::String(s) => SpecTokenKind::Str(s@),
            TokenKind::Comma => SpecTokenKind::Comma,
            TokenKind::Dot => SpecTokenKind::Dot,
            TokenKind::LParen => SpecTokenKind::LParen,
            TokenKind::RParen => SpecTokenKind::RParen,
            TokenKind::Semicolon => SpecTokenKind::Semicolon,
            TokenKind::Star => SpecTokenKind::Star,
            TokenKind::Eq => SpecTokenKind::Eq,
            TokenKind::NotEq => SpecTokenKind::NotEq,
            TokenKind::Gt => SpecTokenKind::Gt,
            TokenKind::Lt => SpecTokenKind::Lt,
            TokenKind::Gte => SpecTokenKind::Gte,
            TokenKind::Lte => SpecTokenKind::Lte,
        }
    }
}

impl View for Token {
    type V = SpecToken;

    open spec fn view(&self) -> SpecToken {
        SpecToken { kind: self.kind@, start: self.start as int, end: self.end as int }
    }
}

pub open spec fn tokens_view(tokens: Seq<Token>) -> Seq<SpecToken> {
    tokens.map_values(|t: Token| t@)
}

// ---------------------------------------------------------------------------
// Character classes (ASCII codes).
// ---------------------------------------------------------------------------

/// `u8::is_ascii_whitespace`: space, tab, line feed, form feed, carriage return.
pub open spec fn is_ws(b: u8) -> bool {
    b == 32 || b == 9 || b == 10 || b == 12 || b == 13
}

pub open spec fn is_digit(b: u8) -> bool {
    48 <= b <= 57
}

pub open spec fn is_ident_start(b: u8) -> bool {
    (65 <= b <= 90) || (97 <= b <= 122) || b == 95
}

pub open spec fn is_ident_char(b: u8) -> bool {
    is_ident_start(b) || is_digit(b)
}

pub open spec fn upper_byte(b: u8) -> u8 {
    if 97 <= b <= 122 {
        (b - 32) as u8
    } else {
        b
    }
}

/// The characters of an ASCII word in upper case (`str::to_ascii_uppercase`).
pub open spec fn upper_chars(word: Seq<u8>) -> Seq<char> {
    word.map_values(|b: u8| byte_char(upper_byte(b)))
}

// ---------------------------------------------------------------------------
// The token grammar.
// ---------------------------------------------------------------------------

/// End of the run of digits that starts at `i`.
pub open spec fn digits_end(s: Seq<u8>, i: int) -> int
    decreases s.len() - i,
{
    if 0 <= i < s.len() && is_digit(s[i]) {
        digits_end(s, i + 1)
    } else {
        i
    }
}

/// End of the run of identifier characters that starts at `i`.
pub open spec fn ident_end(s: Seq<u8>, i: int) -> int
    decreases s.len() - i,
{
    if 0 <= i < s.len() && is_ident_char(s[i]) {
        ident_end(s, i + 1)
    } else {
        i
    }
}

/// The decimal value of a sequence of ASCII digits.
pub open spec fn digits_value(d: Seq<u8>) -> nat
    decreases d.len(),
{
    if d.len() == 0 {
        0
    } else {
        digits_value(d.drop_last()) * 10 + (d.last() - 48) as nat
    }
}

/// Reads the body of a quoted string that starts at `i` (just past the opening quote):
/// a doubled quote stands for one quote, a single quote ends the literal, every other
/// byte is taken as the character of that code. Returns the value and the index just
/// past the closing quote, or the end of input when the literal runs off the end.
pub open spec fn string_body(s: Seq<u8>, i: int, acc: Seq<char>) -> (Seq<char>, int)
    decreases s.len() - i,
{
    if i < 0 || i >= s.len() {
        (acc, i)
    } else if s[i] == 39 {
        if i + 1 < s.len() && s[i + 1] == 39 {
            string_body(s, i + 2, acc.push(byte_char(39)))
        } else {
            (acc, i + 1)
        }
    } else {
        string_body(s, i + 1, acc.push(byte_char(s[i])))
    }
}

/// Keywords are matched without regard to case; every other word is an identifier.
pub open spec fn spec_keyword_or_identifier(word: Seq<u8>) -> SpecTokenKind {
    let up = upper_chars(word);
    if up == "SELECT"@ {
        SpecTokenKind::Select
    } else if up == "DISTINCT"@ {
        SpecTokenKind::Distinct
    } else if up == "FROM"@ {
        SpecTokenKind::From
    } else if up == "GROUP"@ {
        SpecTokenKind::Group
    } else if up == "IS"@ {
        SpecTokenKind::Is
    } else if up == "JOIN"@ {
        SpecTokenKind::Join
    } else if up == "ON"@ {
        SpecTokenKind::On
    } else if up == "WHERE"@ {
        SpecTokenKind::Where
    } else if up == "HAVING"@ {
        SpecTokenKind::Having
    } else if up == "ORDER"@ {
        SpecTokenKind::Order
    } else if up == "BY"@ {
        SpecTokenKind::By
    } else if up == "LIMIT"@ {
        SpecTokenKind::Limit
    } else if up == "ASC"@ {
        SpecTokenKind::Asc
    } else if up == "DESC"@ {
        SpecTokenKind::Desc
    } else if up == "AS"@ {
        SpecTokenKind::As
    } else if up == "NULL"@ {
        SpecTokenKind::Null
    } else if up == "TRUE"@ {
        SpecTokenKind::True
    } else if up == "FALSE"@ {
        SpecTokenKind::False
    } else if up == "AND"@ {
        SpecTokenKind::And
    } else if up == "OR"@ {
        SpecTokenKind::Or
    } else if up == "NOT"@ {
        SpecTokenKind::Not
    } else if up == "IN"@ {
        SpecTokenKind::In
    } else if up == "LIKE"@ {
        SpecTokenKind::Like
    } else if up == "BETWEEN"@ {
        SpecTokenKind::Between
    } else {
        SpecTokenKind::Identifier(bytes_chars(word))
    }
}

/// The token that starts at `start` (a non-whitespace byte) and the index just past it.
pub open spec fn spec_scan_token(s: Seq<u8>, start: int) -> Result<(SpecTokenKind, int), ()> {
    let b = s[start];
    let has_next = start + 1 < s.len();
    if b == 44 {
        Ok((SpecTokenKind::Comma, start + 1))
    } else if b == 46 {
        Ok((SpecTokenKind::Dot, start + 1))
    } else if b == 40 {
        Ok((SpecTokenKind::LParen, start + 1))
    } else if b == 41 {
        Ok((SpecTokenKind::RParen, start + 1))
    } else if b == 59 {
        Ok((SpecTokenKind::Semicolon, start + 1))
    } else if b == 42 {
        Ok((SpecTokenKind::Star, start + 1))
    } else if b == 61 {
        Ok((SpecTokenKind::Eq, start + 1))
    } else if b == 62 {
        if has_next && s[start + 1] == 61 {
            Ok((SpecTokenKind::Gte, start + 2))
        } else {
            Ok((SpecTokenKind::Gt, start + 1))
        }
    } else if b == 60 {
        if has_next && s[start + 1] == 61 {
            Ok((SpecTokenKind::Lte, start + 2))
        } else if has_next && s[start + 1] == 62 {
            Ok((SpecTokenKind::NotEq, start + 2))
        } else {
            Ok((SpecTokenKind::Lt, start + 1))
        }
    } else if b == 33 {
        if has_next && s[start + 1] == 61 {
            Ok((SpecTokenKind::NotEq, start + 2))
        } else {
            Err(())
        }
    } else if b == 39 {
        let (value, end) = string_body(s, start + 1, Seq::empty());
        if s[end - 1] == 39 {
            Ok((SpecTokenKind::Str(value), end))
        } else {
            Err(())
        }
    } else if is_digit(b) {
        let end = digits_end(s, start);
        let value = digits_value(s.subrange(start, end));
        if value <= u64::MAX {
            Ok((SpecTokenKind::Integer(value as u64), end))
        } else {
            Err(())
        }
    } else if is_ident_start(b) {
        let end = ident_end(s, start);
        Ok((spec_keyword_or_identifier(s.subrange(start, end)), end))
    } else {
        Err(())
    }
}

/// The tokens of `s` from index `i` on; on failure, the byte offset of the token that
/// could not be read.
pub open spec fn lex_from(s: Seq<u8>, i: int) -> Result<Seq<SpecToken>, int>
    decreases s.len() - i,
{
    if i < 0 || i >= s.len() {
        Ok(Seq::empty())
    } else if is_ws(s[i]) {
        lex_from(s, i + 1)
    } else {
        match spec_scan_token(s, i) {
            Err(_) => Err(i),
            Ok((kind, end)) => if i < end <= s.len() {
                match lex_from(s, end) {
                    Ok(rest) => Ok(seq![SpecToken { kind, start: i, end }] + rest),
                    Err(p) => Err(p),
                }
            } else {
                Err(i)
            },
        }
    }
}

/// The tokens of a whole input, read as UTF-8 bytes.
pub open spec fn spec_lex(s: Seq<u8>) -> Result<Seq<SpecToken>, int> {
    lex_from(s, 0)
}

pub open spec fn prepend_tokens(
    prefix: Seq<SpecToken>,
    r: Result<Seq<SpecToken>, int>,
) -> Result<Seq<SpecToken>, int> {
    match r {
        Ok(rest) => Ok(prefix + rest),
        Err(p) => Err(p),
    }
}

// ---------------------------------------------------------------------------
// Lemmas.
// ---------------------------------------------------------------------------

proof fn lemma_digits_end_bounds(s: Seq<u8>, i: int)
    requires
        0 <= i <= s.len(),
    ensures
        i <= digits_end(s, i) <= s.len(),
        forall|k: int| i <= k < digits_end(s, i) ==> is_digit(s[k]),
    decreases s.len() - i,
{
    if i < s.len() && is_digit(s[i]) {
        lemma_digits_end_bounds(s, i + 1);
    }
}

proof fn lemma_ident_end_bounds(s: Seq<u8>, i: int)
    requires
        0 <= i <= s.len(),
    ensures
        i <= ident_end(s, i) <= s.len(),
    decreases s.len() - i,
{
    if i < s.len() && is_ident_char(s[i]) {
        lemma_ident_end_bounds(s, i + 1);
    }
}

proof fn lemma_string_body_bounds(s: Seq<u8>, i: int, acc: Seq<char>)
    requires
        0 <= i <= s.len(),
    ensures
        i <= string_body(s, i, acc).1 <= s.len(),
    decreases s.len() - i,
{
    if i < s.len() {
        if s[i] == 39 {
            if i + 1 < s.len() && s[i + 1] == 39 {
                lemma_string_body_bounds(s, i + 2, acc.push(byte_char(39)));
            }
        } else {
            lemma_string_body_bounds(s, i + 1, acc.push(byte_char(s[i])));
        }
    }
}

/// A successfully read token is never empty and never runs past the input.
pub proof fn lemma_scan_token_progress(s: Seq<u8>, start: int)
    requires
        0 <= start < s.len(),
    ensures
        spec_scan_token(s, start) matches Ok((_, end)) ==> start < end <= s.len(),
{
    lemma_digits_end_bounds(s, start + 1);
    lemma_ident_end_bounds(s, start + 1);
    lemma_string_body_bounds(s, start + 1, Seq::empty());
}

/// Appending more digits never makes the value smaller.
proof fn lemma_digits_value_monotone(s: Seq<u8>, a: int, k: int, m: int)
    requires
        0 <= a <= k <= m <= s.len(),
    ensures
        digits_value(s.subrange(a, k)) <= digits_value(s.subrange(a, m)),
    decreases m - k,
{
    if k < m {
        lemma_digits_value_monotone(s, a, k, m - 1);
        assert(s.subrange(a, m).drop_last() =~= s.subrange(a, m - 1));
    }
}

// ---------------------------------------------------------------------------
// Executable lexer.
// ---------------------------------------------------------------------------

fn is_ws_byte(b: u8) -> (r: bool)
    ensures
        r == is_ws(b),
{
    b == 32 || b == 9 || b == 10 || b == 12 || b == 13
}

fn is_digit_byte(b: u8) -> (r: bool)
    ensures
        r == is_digit(b),
{
    48 <= b && b <= 57
}

fn is_ident_start_byte(b: u8) -> (r: bool)
    ensures
        r == is_ident_start(b),
{
    (65 <= b && b <= 90) || (97 <= b && b <= 122) || b == 95
}

fn is_ident_char_byte(b: u8) -> (r: bool)
    ensures
        r == is_ident_char(b),
{
    is_ident_start_byte(b) || is_digit_byte(b)
}

fn to_upper_byte(b: u8) -> (r: u8)
    ensures
        r == upper_byte(b),
{
    if 97 <= b && b <= 122 {
        b - 32
    } else {
        b
    }
}

/// Whether the word `bytes[start..end]`, upper-cased, is exactly `keyword`.
fn word_is(bytes: &[u8], start: usize, end: usize, keyword: &str) -> (r: bool)
    requires
        start <= end <= bytes@.len(),
    ensures
        r == (upper_chars(bytes@.subrange(start as int, end as int)) == keyword@),
{
    let ghost word = upper_chars(bytes@.subrange(start as int, end as int));
    let n = keyword.unicode_len();
    if n != end - start {
        return false;
    }
    let mut i: usize = 0;
    while i < n
        invariant
            start <= end <= bytes@.len(),
            n == end - start,
            n == keyword@.len(),
            word == upper_chars(bytes@.subrange(start as int, end as int)),
            i <= n,
            forall|j: int| 0 <= j < i ==> word[j] == keyword@[j],
        decreases n - i,
    {
        let c = keyword.get_char(i);
        let u = to_upper_byte(bytes[start + i]);
        if (u as char) != c {
            assert(word[i as int] != keyword@[i as int]);
            return false;
        }
        i = i + 1;
    }
    assert(word =~= keyword@);
    true
}

/// The characters of `bytes[start..end]`, each byte taken as one character.
fn bytes_to_string(bytes: &[u8], start: usize, end: usize) -> (s: String)
    requires
        start <= end <= bytes@.len(),
    ensures
        s@ == bytes_chars(bytes@.subrange(start as int, end as int)),
{
    let mut s = String::new();
    let mut i = start;
    while i < end
        invariant
            start <= i <= end <= bytes@.len(),
            s@ == bytes_chars(bytes@.subrange(start as int, i as int)),
        decreases end - i,
    {
        push_char(&mut s, bytes[i] as char);
        i = i + 1;
        assert(bytes_chars(bytes@.subrange(start as int, i as int)) =~= bytes_chars(
            bytes@.subrange(start as int, (i - 1) as int),
        ).push(byte_char(bytes@[i - 1])));
    }
    s
}

/// Classifies the word `bytes[start..end]` as a keyword or an identifier.
fn keyword_or_identifier(bytes: &[u8], start: usize, end: usize) -> (k: TokenKind)
    requires
        start <= end <= bytes@.len(),
    ensures
        k@ == spec_keyword_or_identifier(bytes@.subrange(start as int, end as int)),
{
    if word_is(bytes, start, end, "SELECT") {
        TokenKind::Select
    } else if word_is(bytes, start, end, "DISTINCT") {
        TokenKind::Distinct
    } else if word_is(bytes, start, end, "FROM") {
        TokenKind::From
    } else if word_is(bytes, start, end, "GROUP") {
        TokenKind::Group
    } else if word_is(bytes, start, end, "IS") {
        TokenKind::Is
    } else if word_is(bytes, start, end, "JOIN") {
        TokenKind::Join
    } else if word_is(bytes, start, end, "ON") {
        TokenKind::On
    } else if word_is(bytes, start, end, "WHERE") {
        TokenKind::Where
    } else if word_is(bytes, start, end, "HAVING") {
        TokenKind::Having
    } else if word_is(bytes, start, end, "ORDER") {
        TokenKind::Order
    } else if word_is(bytes, start, end, "BY") {
        TokenKind::By
    } else if word_is(bytes, start, end, "LIMIT") {
        TokenKind::Limit
    } else if word_is(bytes, start, end, "ASC") {
        TokenKind::Asc
    } else if word_is(bytes, start, end, "DESC") {
        TokenKind::Desc
    } else if word_is(bytes, start, end, "AS") {
        TokenKind::As
    } else if word_is(bytes, start, end, "NULL") {
        TokenKind::Null
    } else if word_is(bytes, start, end, "TRUE") {
        TokenKind::True
    } else if word_is(bytes, start, end, "FALSE") {
        TokenKind::False
    } else if word_is(bytes, start, end, "AND") {
        TokenKind::And
    } else if word_is(bytes, start, end, "OR") {
        TokenKind::Or
    } else if word_is(bytes, start, end, "NOT") {
        TokenKind::Not
    } else if word_is(bytes, start, end, "IN") {
        TokenKind::In
    } else if word_is(bytes, start, end, "LIKE") {
        TokenKind::Like
    } else if word_is(bytes, start, end, "BETWEEN") {
        TokenKind::Between
    } else {
        TokenKind::Identifier(bytes_to_string(bytes, start, end))
    }
}

/// Reads a quoted string literal whose opening quote is at `start`.
fn scan_string(bytes: &[u8], start: usize) -> (r: Result<(TokenKind, usize), ()>)
    requires
        start < bytes@.len(),
        bytes@[start as int] == 39,
    ensures
        match r {
            Ok((k, e)) => spec_scan_token(bytes@, start as int) == Ok::<(SpecTokenKind, int), ()>((k@, e as int)),
            Err(_) => spec_scan_token(bytes@, start as int) is Err,
        },
{
    let ghost s = bytes@;
    let len = bytes.len();
    let mut index = start + 1;
    let mut value = String::new();
    let mut done = false;
    while !done && index < bytes.len()
        invariant
            s == bytes@,
            start + 1 <= index <= s.len(),
            !done ==> string_body(s, start + 1, Seq::empty()) == string_body(
                s,
                index as int,
                value@,
            ),
            done ==> string_body(s, start + 1, Seq::empty()) == (value@, index as int),
        decreases s.len() - index,
    {
        let next = bytes[index];
        if next == 39 {
            if index + 1 < bytes.len() && bytes[index + 1] == 39 {
                push_char(&mut value, 39u8 as char);
                index = index + 2;
            } else {
                index = index + 1;
                done = true;
            }
        } else {
            push_char(&mut value, next as char);
            index = index + 1;
        }
    }
    if bytes[index - 1] == 39 {
        Ok((TokenKind::String(value), index))
    } else {
        Err(())
    }
}

/// Reads a run of digits that starts at `start` as an unsigned integer.
fn scan_integer(bytes: &[u8], start: usize) -> (r: Result<(TokenKind, usize), ()>)
    requires
        start < bytes@.len(),
        is_digit(bytes@[start as int]),
    ensures
        match r {
            Ok((k, e)) => spec_scan_token(bytes@, start as int) == Ok::<(SpecTokenKind, int), ()>((k@, e as int)),
            Err(_) => spec_scan_token(bytes@, start as int) is Err,
        },
{
    let ghost s = bytes@;
    let mut end = start;
    while end < bytes.len() && is_digit_byte(bytes[end])
        invariant
            s == bytes@,
            start <= end <= s.len(),
            digits_end(s, start as int) == digits_end(s, end as int),
        decreases s.len() - end,
    {
        end = end + 1;
    }
    proof {
        lemma_digits_end_bounds(s, start as int);
    }
    let mut value: u64 = 0;
    let mut k = start;
    while k < end
        invariant
            s == bytes@,
            start <= k <= end <= s.len(),
            end == digits_end(s, start as int),
            forall|j: int| start <= j < end ==> is_digit(s[j]),
            value as nat == digits_value(s.subrange(start as int, k as int)),
        decreases end - k,
    {
        let d = (bytes[k] - 48) as u64;
        assert(s.subrange(start as int, k + 1).drop_last() =~= s.subrange(start as int, k as int));
        match value.checked_mul(10) {
            Some(m) => match m.checked_add(d) {
                Some(v) => {
                    value = v;
                },
                None => {
                    proof {
                        lemma_digits_value_monotone(s, start as int, k + 1, end as int);
                    }
                    return Err(());
                },
            },
            None => {
                proof {
                    lemma_digits_value_monotone(s, start as int, k + 1, end as int);
                }
                return Err(());
            },
        }
        k = k + 1;
    }
    Ok((TokenKind::Integer(value), end))
}

/// Reads the token that starts at the non-whitespace byte `start`.
fn scan_token(bytes: &[u8], start: usize) -> (r: Result<(TokenKind, usize), ()>)
    requires
        start < bytes@.len(),
    ensures
        match r {
            Ok((k, e)) => spec_scan_token(bytes@, start as int) == Ok::<(SpecTokenKind, int), ()>((k@, e as int)),
            Err(_) => spec_scan_token(bytes@, start as int) is Err,
        },
{
    let b = bytes[start];
    let has_next = start + 1 < bytes.len();
    if b == 44 {
        Ok((TokenKind::Comma, start + 1))
    } else if b == 46 {
        Ok((TokenKind::Dot, start + 1))
    } else if b == 40 {
        Ok((TokenKind::LParen, start + 1))
    } else if b == 41 {
        Ok((TokenKind::RParen, start + 1))
    } else if b == 59 {
        Ok((TokenKind::Semicolon, start + 1))
    } else if b == 42 {
        Ok((TokenKind::Star, start + 1))
    } else if b == 61 {
        Ok((TokenKind::Eq, start + 1))
    } else if b == 62 {
        if has_next && bytes[start + 1] == 61 {
            Ok((TokenKind::Gte, start + 2))
        } else {
            Ok((TokenKind::Gt, start + 1))
        }
    } else if b == 60 {
        if has_next && bytes[start + 1] == 61 {
            Ok((TokenKind::Lte, start + 2))
        } else if has_next && bytes[start + 1] == 62 {
            Ok((TokenKind::NotEq, start + 2))
        } else {
            Ok((TokenKind::Lt, start + 1))
        }
    } else if b == 33 {
        if has_next && bytes[start + 1] == 61 {
            Ok((TokenKind::NotEq, start + 2))
        } else {
            Err(())
        }
    } else if b == 39 {
        scan_string(bytes, start)
    } else if is_digit_byte(b) {
        scan_integer(bytes, start)
    } else if is_ident_start_byte(b) {
        let mut end = start;
        while end < bytes.len() && is_ident_char_byte(bytes[end])
            invariant
                start <= end <= bytes@.len(),
                ident_end(bytes@, start as int) == ident_end(bytes@, end as int),
            decreases bytes@.len() - end,
        {
            end = end + 1;
        }
        Ok((keyword_or_identifier(bytes, start, end), end))
    } else {
        Err(())
    }
}

/// The tokens read from offset `i` on lie within the input, each non-empty, in order and
/// without overlap; a failure is at an offset of the input from `i` on.
pub proof fn lemma_lex_from_spans(s: Seq<u8>, i: int)
    requires
        0 <= i,
    ensures
        match lex_from(s, i) {
            Ok(ts) => {
                &&& forall|k: int|
                    0 <= k < ts.len() ==> i <= (#[trigger] ts[k]).start < ts[k].end <= s.len()
                &&& forall|k: int|
                    0 <= k < ts.len() - 1 ==> (#[trigger] ts[k]).end <= ts[k + 1].start
            },
            Err(p) => i <= p < s.len(),
        },
    decreases s.len() - i,
{
    if i < s.len() {
        if is_ws(s[i]) {
            lemma_lex_from_spans(s, i + 1);
        } else {
            match spec_scan_token(s, i) {
                Err(_) => {},
                Ok((kind, end)) => {
                    if i < end <= s.len() {
                        lemma_lex_from_spans(s, end);
                        match lex_from(s, end) {
                            Ok(rest) => {
                                let ts = seq![SpecToken { kind, start: i, end }] + rest;
                                assert forall|k: int| 0 <= k < ts.len() implies i <= (
                                #[trigger] ts[k]).start < ts[k].end <= s.len() by {
                                    if k > 0 {
                                        assert(ts[k] == rest[k - 1]);
                                    }
                                }
                                assert forall|k: int| 0 <= k < ts.len() - 1 implies (
                                #[trigger] ts[k]).end <= ts[k + 1].start by {
                                    assert(ts[k + 1] == rest[k]);
                                    if k > 0 {
                                        assert(ts[k] == rest[k - 1]);
                                    }
                                }
                            },
                            Err(_) => {},
                        }
                    }
                },
            }
        }
    }
}

/// The tokens of a query lie within it, each non-empty, in order and without overlap; a
/// query that does not lex fails at an offset inside it.
pub proof fn lemma_lex_spans(s: Seq<u8>)
    ensures
        match spec_lex(s) {
            Ok(ts) => {
                &&& forall|k: int|
                    0 <= k < ts.len() ==> 0 <= (#[trigger] ts[k]).start < ts[k].end <= s.len()
                &&& forall|k: int|
                    0 <= k < ts.len() - 1 ==> (#[trigger] ts[k]).end <= ts[k + 1].start
            },
            Err(p) => 0 <= p < s.len(),
        },
{
    lemma_lex_from_spans(s, 0);
}

/// The characters of each keyword.
pub(crate) proof fn reveal_keywords()
    ensures
        "SELECT"@ =~= seq!['S', 'E', 'L', 'E', 'C', 'T'],
        "DISTINCT"@ =~= seq!['D', 'I', 'S', 'T', 'I', 'N', 'C', 'T'],
        "FROM"@ =~= seq!['F', 'R', 'O', 'M'],
        "GROUP"@ =~= seq!['G', 'R', 'O', 'U', 'P'],
        "IS"@ =~= seq!['I', 'S'],
        "JOIN"@ =~= seq!['J', 'O', 'I', 'N'],
        "ON"@ =~= seq!['O', 'N'],
        "WHERE"@ =~= seq!['W', 'H', 'E', 'R', 'E'],
        "HAVING"@ =~= seq!['H', 'A', 'V', 'I', 'N', 'G'],
        "ORDER"@ =~= seq!['O', 'R', 'D', 'E', 'R'],
        "BY"@ =~= seq!['B', 'Y'],
        "LIMIT"@ =~= seq!['L', 'I', 'M', 'I', 'T'],
        "ASC"@ =~= seq!['A', 'S', 'C'],
        "DESC"@ =~= seq!['D', 'E', 'S', 'C'],
        "AS"@ =~= seq!['A', 'S'],
        "NULL"@ =~= seq!['N', 'U', 'L', 'L'],
        "TRUE"@ =~= seq!['T', 'R', 'U', 'E'],
        "FALSE"@ =~= seq!['F', 'A', 'L', 'S', 'E'],
        "AND"@ =~= seq!['A', 'N', 'D'],
        "OR"@ =~= seq!['O', 'R'],
        "NOT"@ =~= seq!['N', 'O', 'T'],
        "IN"@ =~= seq!['I', 'N'],
        "LIKE"@ =~= seq!['L', 'I', 'K', 'E'],
        "BETWEEN"@ =~= seq!['B', 'E', 'T', 'W', 'E', 'E', 'N'],
{
    reveal_strlit("SELECT");
    reveal_strlit("DISTINCT");
    reveal_strlit("FROM");
    reveal_strlit("GROUP");
    reveal_strlit("IS");
    reveal_strlit("JOIN");
    reveal_strlit("ON");
    reveal_strlit("WHERE");
    reveal_strlit("HAVING");
    reveal_strlit("ORDER");
    reveal_strlit("BY");
    reveal_strlit("LIMIT");
    reveal_strlit("ASC");
    reveal_strlit("DESC");
    reveal_strlit("AS");
    reveal_strlit("NULL");
    reveal_strlit("TRUE");
    reveal_strlit("FALSE");
    reveal_strlit("AND");
    reveal_strlit("OR");
    reveal_strlit("NOT");
    reveal_strlit("IN");
    reveal_strlit("LIKE");
    reveal_strlit("BETWEEN");
}

/// Two ASCII words that differ at most in the case of their letters.
pub open spec fn same_but_case(a: Seq<u8>, b: Seq<u8>) -> bool {
    &&& a.len() == b.len()
    &&& forall|k: int|
        0 <= k < a.len() ==> {
            ||| #[trigger] a[k] == b[k]
            ||| 65 <= a[k] <= 90 && b[k] == a[k] + 32
            ||| 97 <= a[k] <= 122 && a[k] == b[k] + 32
        }
}

/// Keywords do not depend on letter case: two words that differ only in the case of
/// their letters are the same keyword, or both identifiers (each with its own text).
/// So `select`, `Select` and `SELECT` all read as `SELECT`.
pub proof fn lemma_keywords_ignore_case(a: Seq<u8>, b: Seq<u8>)
    requires
        same_but_case(a, b),
    ensures
        spec_keyword_or_identifier(a) is Identifier <==> spec_keyword_or_identifier(b) is Identifier,
        !(spec_keyword_or_identifier(a) is Identifier) ==> spec_keyword_or_identifier(a)
            == spec_keyword_or_identifier(b),
{
    assert(upper_chars(a) =~= upper_chars(b)) by {
        assert forall|k: int| 0 <= k < a.len() implies upper_chars(a)[k] == upper_chars(b)[k] by {
            assert(a[k] == b[k] || (65 <= a[k] <= 90 && b[k] == a[k] + 32) || (97 <= a[k] <= 122
                && a[k] == b[k] + 32));
        }
    }
}

/// How each keyword is spelled in capitals; `None` for the tokens that are no keyword.
pub open spec fn keyword_spelling(k: SpecTokenKind) -> Option<Seq<char>> {
    match k {
        SpecTokenKind::Select => Some("SELECT"@),
        SpecTokenKind::Distinct => Some("DISTINCT"@),
        SpecTokenKind::From => Some("FROM"@),
        SpecTokenKind::Group => Some("GROUP"@),
        SpecTokenKind::Is => Some("IS"@),
        SpecTokenKind::Join => Some("JOIN"@),
        SpecTokenKind::On => Some("ON"@),
        SpecTokenKind::Where => Some("WHERE"@),
        SpecTokenKind::Having => Some("HAVING"@),
        SpecTokenKind::Order => Some("ORDER"@),
        SpecTokenKind::By => Some("BY"@),
        SpecTokenKind::Limit => Some("LIMIT"@),
        SpecTokenKind::Asc => Some("ASC"@),
        SpecTokenKind::Desc => Some("DESC"@),
        SpecTokenKind::As => Some("AS"@),
        SpecTokenKind::Null => Some("NULL"@),
        SpecTokenKind::True => Some("TRUE"@),
        SpecTokenKind::False => Some("FALSE"@),
        SpecTokenKind::And => Some("AND"@),
        SpecTokenKind::Or => Some("OR"@),
        SpecTokenKind::Not => Some("NOT"@),
        SpecTokenKind::In => Some("IN"@),
        SpecTokenKind::Like => Some("LIKE"@),
        SpecTokenKind::Between => Some("BETWEEN"@),
        _ => None,
    }
}

/// Every character is a capital letter.
pub open spec fn all_capitals(s: Seq<char>) -> bool {
    forall|k: int| 0 <= k < s.len() ==> 'A' <= #[trigger] s[k] <= 'Z'
}

proof fn lemma_keyword_capitals(k: SpecTokenKind)
    ensures
        keyword_spelling(k) matches Some(text) ==> text.len() > 0 && all_capitals(text),
{
    reveal_keywords();
}

proof fn lemma_ident_end_all(s: Seq<u8>, i: int)
    requires
        0 <= i <= s.len(),
        forall|k: int| i <= k < s.len() ==> is_ident_char(#[trigger] s[k]),
    ensures
        ident_end(s, i) == s.len(),
    decreases s.len() - i,
{
    if i < s.len() {
        lemma_ident_end_all(s, i + 1);
    }
}

/// A keyword written in any mix of capital and small letters is read as that keyword,
/// and a query made of that word alone lexes to the one keyword token. So `select`,
/// `Select` and `SELECT` all read as `SELECT`.
pub proof fn lemma_keyword_in_any_case(w: Seq<u8>, c: Seq<u8>, kind: SpecTokenKind)
    requires
        keyword_spelling(kind) == Some(bytes_chars(c)),
        same_but_case(w, c),
    ensures
        spec_keyword_or_identifier(w) == kind,
        spec_lex(w) == Ok::<Seq<SpecToken>, int>(seq![SpecToken { kind, start: 0, end: w.len() as int }]),
{
    let text = bytes_chars(c);
    lemma_keyword_capitals(kind);
    assert forall|k: int| 0 <= k < c.len() implies 65 <= #[trigger] c[k] <= 90 by {
        assert(text[k] == byte_char(c[k]));
        assert('A' <= text[k] <= 'Z');
    }
    assert(upper_chars(c) =~= text) by {
        assert forall|k: int| 0 <= k < c.len() implies upper_chars(c)[k] == text[k] by {
            assert(65 <= c[k] <= 90);
        }
    }
    reveal_keywords();
    assert(spec_keyword_or_identifier(c) == kind);
    lemma_keywords_ignore_case(w, c);
    assert forall|k: int| 0 <= k < w.len() implies is_ident_start(#[trigger] w[k]) by {
        assert(65 <= c[k] <= 90);
        assert(w[k] == c[k] || (65 <= w[k] <= 90 && c[k] == w[k] + 32) || (97 <= w[k] <= 122
            && w[k] == c[k] + 32));
    }
    let n = w.len() as int;
    lemma_ident_end_all(w, 0);
    assert(w.subrange(0, n) =~= w);
    assert(lex_from(w, n) == Ok::<Seq<SpecToken>, int>(Seq::empty()));
    assert(is_ident_start(w[0]));
    assert(spec_scan_token(w, 0) == Ok::<(SpecTokenKind, int), ()>((kind, n)));
    assert(seq![SpecToken { kind, start: 0, end: n }] + Seq::<SpecToken>::empty() =~= seq![
        SpecToken { kind, start: 0, end: n },
    ]);
}

/// Splits a query into tokens.
///
/// On success the tokens are exactly `spec_lex` of the query's UTF-8 bytes; on failure
/// the error is the byte offset of the first byte that starts no token.
pub fn lex(input: &str) -> (res: Result<Vec<Token>, usize>)
    ensures
        match res {
            Ok(tokens) => spec_lex(input.spec_bytes()) == Ok::<Seq<SpecToken>, int>(tokens_view(tokens@)),
            Err(p) => spec_lex(input.spec_bytes()) == Err::<Seq<SpecToken>, int>(p as int),
        },
{
    let bytes = input.as_bytes();
    let ghost s = bytes@;
    let mut tokens: Vec<Token> = Vec::new();
    let mut index: usize = 0;
    assert(tokens_view(tokens@) =~= Seq::<SpecToken>::empty());
    while index < bytes.len()
        invariant
            s == bytes@,
            s == input.spec_bytes(),
            index <= s.len(),
            lex_from(s, 0) == prepend_tokens(tokens_view(tokens@), lex_from(s, index as int)),
        decreases s.len() - index,
    {
        let byte = bytes[index];
        if is_ws_byte(byte) {
            index = index + 1;
            continue;
        }
        let start = index;
        proof {
            lemma_scan_token_progress(s, start as int);
        }
        match scan_token(bytes, start) {
            Err(_) => {
                return Err(start);
            },
            Ok((kind, end)) => {
                let ghost old_tokens = tokens_view(tokens@);
                let token = Token { kind, start, end };
                tokens.push(token);
                proof {
                    assert(tokens_view(tokens@) =~= old_tokens.push(token@));
                    match lex_from(s, end as int) {
                        Ok(rest) => {
                            assert(old_tokens + (seq![token@] + rest) =~= old_tokens.push(
                                token@,
                            ) + rest);
                        },
                        Err(_) => {},
                    }
                }
                index = end;
            },
        }
    }
    assert(tokens_view(tokens@) + Seq::<SpecToken>::empty() =~= tokens_view(tokens@));
    Ok(tokens)
}

} // verus!
