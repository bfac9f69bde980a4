use vstd::prelude::*;

use crate::text::{chars_of, parse_int};

verus! {

/// A piece of a source text: the characters `start..end` of `full_string`, together with
/// what was read from them.
#[derive(Debug)]
pub struct Span<'a, T> {
    pub inner: T,
    pub full_string: &'a str,
    pub start: usize,
    pub end: usize,
}

/// A failed parse: where it failed, why, and what had been read up to there.
#[derive(Debug)]
pub struct Error<'a, T> {
    pub location: Span<'a, ()>,
    pub reason: &'static str,
    pub partial_parse: T,
}

/// A node of the syntax tree of the language.
#[derive(Debug)]
pub enum AST<'a> {
    Number(i64),
    String(&'a str),
    Identifier(&'a str),
    List(Vec<Span<'a, AST<'a>>>),
}

pub type ParseError<'a> = Error<'a, Span<'a, AST<'a>>>;

/// The number of line breaks in `q`.
pub open spec fn count_newlines(q: Seq<char>) -> nat
    decreases q.len(),
{
    if q.len() == 0 {
        0
    } else {
        count_newlines(q.drop_last()) + if q.last() == '\n' {
            1nat
        } else {
            0nat
        }
    }
}

/// The number of bytes that `c` takes in UTF-8.
pub open spec fn utf8_width(c: char) -> nat {
    if (c as u32) < 0x80 {
        1
    } else if (c as u32) < 0x800 {
        2
    } else if (c as u32) < 0x10000 {
        3
    } else {
        4
    }
}

/// The number of bytes that `q` takes in UTF-8.
pub open spec fn utf8_count(q: Seq<char>) -> nat
    decreases q.len(),
{
    if q.len() == 0 {
        0
    } else {
        utf8_count(q.drop_last()) + utf8_width(q.last())
    }
}

/// The length in bytes (UTF-8) of the last line of `q`.
pub open spec fn last_line_len(q: Seq<char>) -> nat
    decreases q.len(),
{
    if q.len() == 0 {
        0
    } else if q.last() == '\n' {
        0
    } else {
        last_line_len(q.drop_last()) + utf8_width(q.last())
    }
}

fn utf8_width_of(c: char) -> (r: usize)
    ensures
        r == utf8_width(c),
        1 <= r <= 4,
{
    let v = c as u32;
    if v < 0x80 {
        1
    } else if v < 0x800 {
        2
    } else if v < 0x10000 {
        3
    } else {
        4
    }
}

/// The number of bytes that the characters `from..to` of `full` take in UTF-8.
fn utf8_len_of(full: &str, from: usize, to: usize) -> (r: usize)
    requires
        from <= to <= full@.len(),
        full@.len() * 4 <= usize::MAX,
    ensures
        r == utf8_count(full@.subrange(from as int, to as int)),
{
    let s = chars_of(full);
    let mut n: usize = 0;
    let mut i = from;
    while i < to
        invariant
            from <= i <= to <= s@.len(),
            s@.len() * 4 <= usize::MAX,
            n == utf8_count(s@.subrange(from as int, i as int)),
            n <= 4 * (i - from),
        decreases to - i,
    {
        assert(s@.subrange(from as int, i + 1).drop_last() =~= s@.subrange(from as int, i as int));
        n = n + utf8_width_of(s[i]);
        i = i + 1;
    }
    n
}

/// `p` without one final line ending (`\n` or `\r\n`).
pub open spec fn without_line_end(p: Seq<char>) -> Seq<char> {
    if p.len() > 0 && p.last() == '\n' {
        let q = p.drop_last();
        if q.len() > 0 && q.last() == '\r' {
            q.drop_last()
        } else {
            q
        }
    } else {
        p
    }
}

/// The line and the column, counted from 0, of the last line of the text `p` that comes
/// before a position: a final line ending does not open a new line.
pub open spec fn line_col(p: Seq<char>) -> (int, int) {
    let q = without_line_end(p);
    (count_newlines(q) as int, last_line_len(q) as int)
}

/// Unicode's White_Space property.
pub open spec fn is_white(c: char) -> bool {
    ('\u{9}' <= c <= '\u{d}') || c == ' ' || c == '\u{85}' || c == '\u{a0}' || c == '\u{1680}' || ('\u{2000}'
        <= c <= '\u{200a}') || c == '\u{2028}' || c == '\u{2029}' || c == '\u{202f}' || c == '\u{205f}'
        || c == '\u{3000}'
}

fn is_white_char(c: char) -> (r: bool)
    ensures
        r == is_white(c),
{
    ('\u{9}' <= c && c <= '\u{d}') || c == ' ' || c == '\u{85}' || c == '\u{a0}' || c == '\u{1680}' || (
    '\u{2000}' <= c && c <= '\u{200a}') || c == '\u{2028}' || c == '\u{2029}' || c == '\u{202f}' || c
        == '\u{205f}' || c == '\u{3000}'
}

fn offset_to_line_column(full: &str, upto: usize) -> (r: (usize, usize))
    requires
        upto <= full@.len(),
        full@.len() * 4 <= usize::MAX,
    ensures
        r.0 as int == line_col(full@.subrange(0, upto as int)).0,
        r.1 as int == line_col(full@.subrange(0, upto as int)).1,
{
    let s = chars_of(full);
    let ghost p = s@.subrange(0, upto as int);
    let mut q_end = upto;
    if q_end > 0 && s[q_end - 1] == '\n' {
        q_end = q_end - 1;
        if q_end > 0 && s[q_end - 1] == '\r' {
            q_end = q_end - 1;
        }
    }
    proof {
        let q = without_line_end(p);
        if upto > 0 && s@[upto - 1] == '\n' {
            assert(p.drop_last() =~= s@.subrange(0, upto - 1));
            if upto > 1 && s@[upto - 2] == '\r' {
                assert(p.drop_last().drop_last() =~= s@.subrange(0, upto - 2));
            }
        }
        assert(q =~= s@.subrange(0, q_end as int));
    }
    let mut lines: usize = 0;
    let mut col: usize = 0;
    let mut i: usize = 0;
    while i < q_end
        invariant
            i <= q_end <= s@.len(),
            lines as int == count_newlines(s@.subrange(0, i as int)),
            col as int == last_line_len(s@.subrange(0, i as int)),
            lines <= i,
            col <= 4 * i,
            s@.len() * 4 <= usize::MAX,
        decreases q_end - i,
    {
        assert(s@.subrange(0, i + 1).drop_last() =~= s@.subrange(0, i as int));
        if s[i] == '\n' {
            lines = lines + 1;
            col = 0;
        } else {
            col = col + utf8_width_of(s[i]);
        }
        i = i + 1;
    }
    (lines, col)
}

impl<'a, T> Span<'a, T> {
    /// The span lies within its text.
    pub open spec fn wf(&self) -> bool {
        self.start <= self.end <= self.full_string@.len()
    }

    /// The characters that the span covers.
    pub open spec fn text(&self) -> Seq<char> {
        self.full_string@.subrange(self.start as int, self.end as int)
    }

    /// The characters that the span covers.
    pub fn string(&self) -> (r: &'a str)
        requires
            self.wf(),
        ensures
            r@ == self.text(),
    {
        self.full_string.substring_char(self.start, self.end)
    }

    /// The line and column at which the span starts.
    pub fn start_line_column(&self) -> (r: (usize, usize))
        requires
            self.wf(),
            self.full_string@.len() * 4 <= usize::MAX,
        ensures
            (r.0 as int, r.1 as int) == line_col(self.full_string@.subrange(0, self.start as int)),
    {
        offset_to_line_column(self.full_string, self.start)
    }

    /// The line and column at which the span ends.
    pub fn end_line_column(&self) -> (r: (usize, usize))
        requires
            self.wf(),
            self.full_string@.len() * 4 <= usize::MAX,
        ensures
            (r.0 as int, r.1 as int) == line_col(self.full_string@.subrange(0, self.end as int)),
    {
        offset_to_line_column(self.full_string, self.end)
    }
}

impl<'a> Span<'a, ()> {
    /// The span of all of `input`.
    pub fn new(input: &'a str) -> (r: Self)
        ensures
            r.wf(),
            r.full_string == input,
            r.start == 0,
            r.end == input@.len(),
    {
        Span { inner: (), full_string: input, start: 0, end: input.unicode_len() }
    }
}

fn piece<'a>(full: &'a str, start: usize, end: usize) -> (r: Span<'a, ()>)
    ensures
        r.full_string == full,
        r.start == start,
        r.end == end,
{
    Span { inner: (), full_string: full, start, end }
}

/// The position, counted from the start of `t`, where its leading white space ends; where
/// `t` is white space throughout, the position of its last character.
#[verifier::opaque]
pub open spec fn whitespace_end(t: Seq<char>) -> int {
    if exists|i: int| 0 <= i < t.len() && !is_white(#[trigger] t[i]) {
        choose|i: int| 0 <= i < t.len() && !is_white(#[trigger] t[i]) && forall|j: int| 0 <= j < i ==> is_white(#[trigger] t[j])
    } else if t.len() > 0 {
        t.len() - 1
    } else {
        0
    }
}

/// Splits the leading white space off `input`.
pub fn parse_whitespace<'a>(input: Span<'a, ()>) -> (r: Result<(Span<'a, ()>, Span<'a, ()>), ParseError<'a>>)
    requires
        input.wf(),
    ensures
        r matches Ok((ws, rest)) && ws.full_string == input.full_string && rest.full_string == input.full_string
            && ws.start == input.start && ws.end == rest.start && rest.end == input.end && rest.start
            == input.start + whitespace_end(input.text()) && input.start <= rest.start <= rest.end,
{
    proof {
        reveal(whitespace_end);
    }
    let full = input.full_string;
    let mut i = input.start;
    while i < input.end && is_white_char(full.get_char(i))
        invariant
            input.start <= i <= input.end <= full@.len(),
            full == input.full_string,
            forall|j: int| input.start <= j < i ==> is_white(#[trigger] full@[j]),
        decreases input.end - i,
    {
        i = i + 1;
    }
    let ghost t = input.text();
    proof {
        assert forall|j: int| 0 <= j < i - input.start implies is_white(#[trigger] t[j]) by {
            assert(t[j] == full@[input.start + j]);
        }
    }
    let split = if i < input.end {
        proof {
            let k = i - input.start;
            assert(!is_white(t[k]));
            let c = whitespace_end(t);
            if c != k {
                if c < k {
                    assert(is_white(t[c]));
                } else {
                    assert(is_white(t[k]));
                }
            }
        }
        i
    } else if input.end > input.start {
        input.end - 1
    } else {
        input.start
    };
    Ok((piece(full, input.start, split), piece(full, split, input.end)))
}

pub open spec fn end_of_file_reason() -> Seq<char> {
    "Expected end of file."@
}

/// None of the reasons for failing to read an expression is the one for text left over.
proof fn lemma_reasons()
    ensures
        "Unexpected end of code. Expected a `\"`"@ != end_of_file_reason(),
        "Expected a `\"`"@ != end_of_file_reason(),
        "Unterminated string literal"@ != end_of_file_reason(),
        "Failed to parse number"@ != end_of_file_reason(),
        "Expected an identifier"@ != end_of_file_reason(),
        "Expected a `(`"@ != end_of_file_reason(),
        "Unexpected end of input"@ != end_of_file_reason(),
        "Unexpected character. Expected `\"`, 0-9, a-z, A-Z or `(`."@ != end_of_file_reason(),
{
    reveal_strlit("Expected end of file.");
    reveal_strlit("Unexpected end of code. Expected a `\"`");
    reveal_strlit("Expected a `\"`");
    reveal_strlit("Unterminated string literal");
    reveal_strlit("Failed to parse number");
    reveal_strlit("Expected an identifier");
    reveal_strlit("Expected a `(`");
    reveal_strlit("Unexpected end of input");
    reveal_strlit("Unexpected character. Expected `\"`, 0-9, a-z, A-Z or `(`.");
    assert("Expected end of file."@.len() == 21);
    assert("Expected a `\"`"@.len() == 14);
    assert("Unexpected end of code. Expected a `\"`"@.len() == 38);
}

fn string_error<'a>(full: &'a str, start: usize, end: usize, reason: &'static str, text: &'a str) -> (r: ParseError<'a>)
    ensures
        r.reason == reason,
        r.location.full_string == full,
        r.location.start == start,
        r.location.end == end,
{
    Error {
        location: piece(full, start, end),
        reason,
        partial_parse: Span { inner: AST::String(text), full_string: full, start, end },
    }
}

/// The position, counted from the start of `t`, of the quote that closes the string literal
/// that `t` starts with.
pub open spec fn closing_quote(t: Seq<char>) -> Option<int> {
    if exists|i: int| 1 <= i < t.len() && #[trigger] t[i] == '"' {
        Some(choose|i: int| 1 <= i < t.len() && #[trigger] t[i] == '"' && forall|j: int| 1 <= j < i ==> #[trigger] t[j] != '"')
    } else {
        None
    }
}

/// Reads a string literal: `"`, any characters but `"`, and `"`.
pub fn parse_string<'a>(input: Span<'a, ()>) -> (r: Result<(Span<'a, &'a str>, Span<'a, ()>), ParseError<'a>>)
    requires
        input.wf(),
    ensures
        r matches Err(e) ==> e.reason@ != end_of_file_reason(),
        r matches Ok((s, rest)) ==> parsed_from(input, s, rest),
        r matches Err(e) ==> e.location.full_string == input.full_string,
        input.text().len() == 0 ==> (r matches Err(e) && e.reason@ == "Unexpected end of code. Expected a `\"`"@),
        input.text().len() > 0 && input.text()[0] != '"' ==> (r matches Err(e) && e.reason@ == "Expected a `\"`"@
            && e.location.start == input.start && e.location.end == input.start + 1),
        input.text().len() > 0 && input.text()[0] == '"' && closing_quote(input.text()) is None ==> (r matches Err(e)
            && e.reason@ == "Unterminated string literal"@ && e.location.start == input.start && e.location.end == input.end),
        (input.text().len() > 0 && input.text()[0] == '"' && closing_quote(input.text()) is Some) ==> (r matches Ok((s, rest))
            && s.full_string == input.full_string && rest.full_string == input.full_string && s.start == input.start
            && s.end == input.start + closing_quote(input.text()).unwrap() + 1 && rest.start == s.end && rest.end == input.end && s.inner@
            == input.text().subrange(1, closing_quote(input.text()).unwrap())),
{
    proof {
        lemma_reasons();
    }
    let full = input.full_string;
    let ghost t = input.text();
    if input.start == input.end {
        return Err(string_error(full, input.start, input.start, "Unexpected end of code. Expected a `\"`", ""));
    }
    let first = full.get_char(input.start);
    assert(first == t[0]);
    if first != '"' {
        return Err(string_error(full, input.start, input.start + 1, "Expected a `\"`", ""));
    }
    let mut i = input.start + 1;
    while i < input.end && full.get_char(i) != '"'
        invariant
            input.start < i <= input.end <= full@.len(),
            full == input.full_string,
            t == input.text(),
            forall|j: int| 1 <= j < i - input.start ==> #[trigger] t[j] != '"',
        decreases input.end - i,
    {
        assert(t[i - input.start] == full@[i as int]);
        i = i + 1;
    }
    if i == input.end {
        return Err(
            Error {
                location: piece(full, input.start, input.end),
                reason: "Unterminated string literal",
                partial_parse: Span { inner: AST::String(full.substring_char(input.start + 1, input.end)), full_string: full, start: input.start, end: input.end },
            },
        );
    }
    proof {
        let k = i - input.start;
        assert(t[k] == '"');
        let c = closing_quote(t).unwrap();
        if c != k {
            if c < k {
                assert(t[c] != '"');
            } else {
                assert(t[k] != '"');
            }
        }
    }
    let inner = full.substring_char(input.start + 1, i);
    assert(inner@ =~= t.subrange(1, i - input.start));
    Ok((Span { inner, full_string: full, start: input.start, end: i + 1 }, piece(full, i + 1, input.end)))
}

pub open spec fn is_ascii_digit(c: char) -> bool {
    '0' <= c <= '9'
}

/// The length of the run of ASCII digits that `t` starts with.
pub open spec fn digits_end(t: Seq<char>) -> int {
    if exists|i: int| 0 <= i < t.len() && !is_ascii_digit(#[trigger] t[i]) {
        choose|i: int| 0 <= i < t.len() && !is_ascii_digit(#[trigger] t[i]) && forall|j: int| 0 <= j < i ==> is_ascii_digit(#[trigger] t[j])
    } else {
        t.len() as int
    }
}

/// Reads a number: the run of ASCII digits at the start, which must be a non-empty `i64`.
pub fn parse_number<'a>(input: Span<'a, ()>) -> (r: Result<(Span<'a, i64>, Span<'a, ()>), ParseError<'a>>)
    requires
        input.wf(),
    ensures
        r matches Err(e) ==> e.reason@ != end_of_file_reason(),
        r matches Ok((n, rest)) ==> parsed_from(input, n, rest),
        r matches Err(e) ==> e.location.full_string == input.full_string,
        ({
            let e = digits_end(input.text());
            let d = input.text().subrange(0, e);
            &&& (crate::text::int_value(d) matches Some(v) && v <= i64::MAX) ==> (r matches Ok((n, rest)) && n.inner as int == crate::text::int_value(d).unwrap()
                && n.full_string == input.full_string && rest.full_string == input.full_string && n.start == input.start
                && n.end == input.start + e && rest.start == n.end && rest.end == input.end)
            &&& !(crate::text::int_value(d) matches Some(v) && v <= i64::MAX) ==> (r matches Err(err) && err.reason@
                == "Failed to parse number"@ && err.location.start == input.start && err.location.end == input.start + e)
        }),
{
    proof {
        lemma_reasons();
    }
    let full = input.full_string;
    let ghost t = input.text();
    let mut i = input.start;
    while i < input.end && '0' <= full.get_char(i) && full.get_char(i) <= '9'
        invariant
            input.start <= i <= input.end <= full@.len(),
            full == input.full_string,
            t == input.text(),
            forall|j: int| 0 <= j < i - input.start ==> is_ascii_digit(#[trigger] t[j]),
        decreases input.end - i,
    {
        assert(t[i - input.start] == full@[i as int]);
        i = i + 1;
    }
    proof {
        let k = i - input.start;
        if i < input.end {
            assert(t[k] == full@[i as int]);
            assert(!is_ascii_digit(t[k]));
            let c = digits_end(t);
            if c != k {
                if c < k {
                    assert(is_ascii_digit(t[c]));
                } else {
                    assert(is_ascii_digit(t[k]));
                }
            }
        } else {
            if exists|x: int| 0 <= x < t.len() && !is_ascii_digit(#[trigger] t[x]) {
                let x = choose|x: int| 0 <= x < t.len() && !is_ascii_digit(#[trigger] t[x]);
                assert(is_ascii_digit(t[x]));
            }
        }
    }
    let digits = chars_of(full.substring_char(input.start, i));
    let ghost d = t.subrange(0, i - input.start);
    assert(digits@ =~= d);
    match parse_int(&digits, i64::MAX) {
        Some(v) => {
            proof {
                if i == input.start {
                    assert(digits@.len() == 0);
                }
            }
            Ok((Span { inner: v, full_string: full, start: input.start, end: i }, piece(full, i, input.end)))
        },
        None => Err(
            Error {
                location: piece(full, input.start, i),
                reason: "Failed to parse number",
                partial_parse: Span { inner: AST::Number(1337), full_string: full, start: input.start, end: i },
            },
        ),
    }
}

pub open spec fn is_identifier_char(c: char) -> bool {
    ('a' <= c <= 'z') || ('A' <= c <= 'Z') || c == '-'
}

/// Reads an identifier: the run of ASCII letters and `-` at the start, which must not be empty.
pub fn parse_identifier<'a>(input: Span<'a, ()>) -> (r: Result<(Span<'a, &'a str>, Span<'a, ()>), ParseError<'a>>)
    requires
        input.wf(),
    ensures
        r matches Err(e) ==> e.reason@ != end_of_file_reason(),
        r matches Ok((id, rest)) ==> parsed_from(input, id, rest),
        r matches Err(e) ==> e.location.full_string == input.full_string,
        r matches Ok((id, rest)) ==> id.full_string == input.full_string && rest.full_string == input.full_string
            && id.start == input.start && id.start < id.end && id.end == rest.start && rest.end == input.end
            && id.inner@ == id.text() && (forall|j: int| id.start <= j < id.end ==> is_identifier_char(#[trigger] input.full_string@[j]))
            && (id.end == input.end || !is_identifier_char(input.full_string@[id.end as int])),
        r matches Err(e) ==> e.reason@ == "Expected an identifier"@ && e.location.start == input.start
            && e.location.end == input.start && (input.text().len() == 0 || !is_identifier_char(input.text()[0])),
        input.text().len() > 0 && is_identifier_char(input.text()[0]) ==> r is Ok,
{
    proof {
        lemma_reasons();
    }
    let full = input.full_string;
    let mut i = input.start;
    while i < input.end && (('a' <= full.get_char(i) && full.get_char(i) <= 'z') || ('A' <= full.get_char(i) && full.get_char(i) <= 'Z') || full.get_char(i) == '-')
        invariant
            input.start <= i <= input.end <= full@.len(),
            full == input.full_string,
            forall|j: int| input.start <= j < i ==> is_identifier_char(#[trigger] full@[j]),
        decreases input.end - i,
    {
        i = i + 1;
    }
    if i == input.start {
        proof {
            if input.text().len() > 0 {
                assert(input.text()[0] == full@[input.start as int]);
            }
        }
        return Err(
            Error {
                location: piece(full, input.start, input.start),
                reason: "Expected an identifier",
                partial_parse: Span { inner: AST::Identifier(""), full_string: full, start: input.start, end: input.start },
            },
        );
    }
    let inner = full.substring_char(input.start, i);
    Ok((Span { inner, full_string: full, start: input.start, end: i }, piece(full, i, input.end)))
}

/// What a successful parse of an expression from `input` promises: the expression's span lies
/// within the input after its leading white space, covers at least one character, and the
/// rest is what follows it.
pub open spec fn parsed_from<'a, T>(input: Span<'a, ()>, node: Span<'a, T>, rest: Span<'a, ()>) -> bool {
    &&& node.full_string == input.full_string && rest.full_string == input.full_string
    &&& input.start <= node.start < node.end == rest.start <= rest.end
    &&& rest.end == input.end
}

/// `node` is the expression that starts at `w` in `full` (the input ending at `end`): its kind
/// is told by its first character, and a leaf covers exactly its literal.
pub open spec fn node_fits<'a>(full: Seq<char>, w: int, end: int, node: Span<'a, AST<'a>>) -> bool
    decreases node, 1nat, 0int,
{
    let t = full.subrange(w, end);
    &&& node.start == w && w < end
    &&& match node.inner {
        AST::String(x) => t[0] == '"' && closing_quote(t) == Some(node.end - w - 1) && x@ == t.subrange(1, node.end - w - 1),
        AST::Number(v) => is_ascii_digit(t[0]) && node.end == w + digits_end(t) && crate::text::int_value(
            t.subrange(0, digits_end(t)),
        ) == Some(v as int),
        AST::Identifier(x) => crate::datetime::is_alpha(t[0]) && x@ == node.text() && (forall|j: int|
            node.start <= j < node.end ==> is_identifier_char(#[trigger] full[j])) && (node.end == end
            || !is_identifier_char(full[node.end as int])),
        AST::List(l) => t[0] == '(' && full[node.end - 1] == ')' && elements_fit(full, end, node.start as int, l@, l@.len() as int)
            && node.end - 1 == next_token(full, element_end(l@, node.start as int, l@.len() as int), end),
    }
}

/// Where reading goes on after white space from `p` (as `parse_whitespace` splits it).
pub open spec fn next_token(full: Seq<char>, p: int, end: int) -> int {
    p + whitespace_end(full.subrange(p, end))
}

/// Where the `n`-th element of a list that opens at `start` ends (for `n` zero: after `(`).
pub open spec fn element_end<'a>(s: Seq<Span<'a, AST<'a>>>, start: int, n: int) -> int {
    if n <= 0 {
        start + 1
    } else {
        s[n - 1].end as int
    }
}

/// The first `n` elements `s` of a list that opens at `start` are the expressions read, in
/// order, each after the white space that follows the previous one.
pub open spec fn elements_fit<'a>(full: Seq<char>, end: int, start: int, s: Seq<Span<'a, AST<'a>>>, n: int) -> bool
    decreases s, 0nat, n,
{
    if 0 < n <= s.len() {
        &&& elements_fit(full, end, start, s, n - 1)
        &&& s[n - 1].start == next_token(full, element_end(s, start, n - 1), end)
        &&& node_fits(full, s[n - 1].start as int, end, s[n - 1])
    } else {
        true
    }
}

proof fn lemma_elements_fit_push<'a>(full: Seq<char>, end: int, start: int, s: Seq<Span<'a, AST<'a>>>, x: Span<'a, AST<'a>>, n: int)
    requires
        0 <= n <= s.len(),
    ensures
        elements_fit(full, end, start, s.push(x), n) == elements_fit(full, end, start, s, n),
    decreases n,
{
    if n > 0 {
        lemma_elements_fit_push(full, end, start, s, x, n - 1);
        assert(s.push(x)[n - 1] == s[n - 1]);
        if n > 1 {
            assert(s.push(x)[n - 2] == s[n - 2]);
        }
    }
}

proof fn lemma_first_non_white(t: Seq<char>, k: int)
    requires
        0 <= k < t.len(),
        !is_white(t[k]),
    ensures
        exists|i: int| 0 <= i < t.len() && !is_white(#[trigger] t[i]) && forall|j: int| 0 <= j < i ==> is_white(#[trigger] t[j]),
    decreases k,
{
    if exists|j: int| 0 <= j < k && !is_white(#[trigger] t[j]) {
        let j = choose|j: int| 0 <= j < k && !is_white(#[trigger] t[j]);
        lemma_first_non_white(t, j);
    } else {
        assert(forall|j: int| 0 <= j < k ==> is_white(#[trigger] t[j]));
    }
}

proof fn lemma_next_token_settled(full: Seq<char>, prev: int, end: int)
    requires
        0 <= prev <= end <= full.len(),
    ensures
        whitespace_end(full.subrange(next_token(full, prev, end), end)) == 0,
{
    let t0 = full.subrange(prev, end);
    lemma_whitespace_twice(t0);
    let we = whitespace_end(t0);
    let u = t0.subrange(we, t0.len() as int);
    let v = full.subrange(prev + we, end);
    assert(u.len() == v.len());
    assert forall|j: int| 0 <= j < u.len() implies u[j] == v[j] by {}
    assert(u =~= v);
}

proof fn lemma_list_step<'a>(full: Seq<char>, end: int, start: int, before: Seq<Span<'a, AST<'a>>>, x: Span<'a, AST<'a>>, prev: int)
    requires
        elements_fit(full, end, start, before, before.len() as int),
        prev == element_end(before, start, before.len() as int),
        x.start == next_token(full, prev, end),
        node_fits(full, next_token(full, prev, end), end, x),
    ensures
        elements_fit(full, end, start, before.push(x), before.len() + 1 as int),
{
    let n = before.len() as int;
    let s2 = before.push(x);
    lemma_elements_fit_push(full, end, start, before, x, n);
    if n > 0 {
        assert(s2[n - 1] == before[n - 1]);
    }
    assert(element_end(s2, start, n) == prev);
    assert(s2[n] == x);
    assert(elements_fit(full, end, start, s2, n));
    assert(s2[n].start == next_token(full, element_end(s2, start, n), end));
    assert(node_fits(full, s2[n].start as int, end, s2[n]));
    assert(0 < n + 1 <= s2.len());
    assert(elements_fit(full, end, start, s2, n + 1));
}

proof fn lemma_whitespace_twice(t: Seq<char>)
    ensures
        0 <= whitespace_end(t) <= t.len(),
        whitespace_end(t.subrange(whitespace_end(t), t.len() as int)) == 0,
{
    reveal(whitespace_end);
    let w = whitespace_end(t);
    let u = t.subrange(w, t.len() as int);
    if exists|i: int| 0 <= i < t.len() && !is_white(#[trigger] t[i]) {
        let k = choose|i: int| 0 <= i < t.len() && !is_white(#[trigger] t[i]);
        let c0 = choose|i: int| 0 <= i < t.len() && !is_white(#[trigger] t[i]) && forall|j: int| 0 <= j < i ==> is_white(#[trigger] t[j]);
        if !(0 <= c0 < t.len() && !is_white(t[c0]) && forall|j: int| 0 <= j < c0 ==> is_white(#[trigger] t[j])) {
            lemma_first_non_white(t, k);
        }
        assert(w == c0);
        assert(u[0] == t[w]);
        assert(!is_white(u[0]));
        let c = whitespace_end(u);
        if c != 0 {
            assert(is_white(u[0]));
        }
    } else if t.len() > 0 {
        assert(u.len() == 1);
        if exists|i: int| 0 <= i < u.len() && !is_white(#[trigger] u[i]) {
            let i = choose|i: int| 0 <= i < u.len() && !is_white(#[trigger] u[i]);
            assert(u[i] == t[w + i]);
        }
    }
}

/// What reading one expression from the text `t` (after its leading white space, at `w` in
/// `full`) gives, as far as its first character decides.
pub open spec fn expression_read<'a>(
    r: Result<(Span<'a, AST<'a>>, Span<'a, ()>), ParseError<'a>>,
    full: Seq<char>,
    w: int,
    end: int,
) -> bool {
    let t = full.subrange(w, end);
    &&& r matches Ok((node, _)) ==> node_fits(full, w, end, node)
    &&& t.len() == 0 ==> (r matches Err(e) && e.reason@ == "Unexpected end of input"@ && e.location.start == w
        && e.location.end == w)
    &&& (t.len() > 0 && !(t[0] == '"' || is_ascii_digit(t[0]) || crate::datetime::is_alpha(t[0]) || t[0] == '(')) ==> (
    r matches Err(e) && e.reason@ == "Unexpected character. Expected `\"`, 0-9, a-z, A-Z or `(`."@ && e.location.start
        == w && e.location.end == w + 1)
    &&& (t.len() > 0 && t[0] == '"') ==> (r is Ok <==> closing_quote(t) is Some)
    &&& (t.len() > 0 && is_ascii_digit(t[0])) ==> (r is Ok <==> (crate::text::int_value(t.subrange(0, digits_end(t)))
        matches Some(v) && v <= i64::MAX))
    &&& (t.len() > 0 && crate::datetime::is_alpha(t[0])) ==> r is Ok
}

/// Reads a list: `(`, expressions separated by white space, and `)`.
#[verifier::rlimit(100)]
#[verifier::spinoff_prover]
pub fn parse_list<'a>(full_input: Span<'a, ()>) -> (r: Result<(Span<'a, Vec<Span<'a, AST<'a>>>>, Span<'a, ()>), ParseError<'a>>)
    requires
        full_input.wf(),
    ensures
        r matches Err(e) ==> e.reason@ != end_of_file_reason(),
        r matches Ok((l, rest)) ==> parsed_from(full_input, l, rest) && l.start == full_input.start
            && full_input.full_string@[l.start as int] == '(' && full_input.full_string@[l.end - 1] == ')'
            && (forall|j: int| 0 <= j < l.inner@.len() ==> (#[trigger] l.inner@[j]).full_string == full_input.full_string
                && ast_wf(l.inner@[j]))
            && elements_fit(full_input.full_string@, full_input.end as int, l.start as int, l.inner@, l.inner@.len() as int)
            && l.end - 1 == next_token(full_input.full_string@, element_end(l.inner@, l.start as int, l.inner@.len() as int), full_input.end as int),
        r matches Err(e) ==> e.location.full_string == full_input.full_string,
        full_input.text().len() == 0 || full_input.text()[0] != '(' ==> (r matches Err(e) && e.reason@ == "Expected a `(`"@),
    decreases full_input.end - full_input.start, 0nat,
{
    proof {
        lemma_reasons();
    }
    let full = full_input.full_string;
    if full_input.start == full_input.end || full.get_char(full_input.start) != '(' {
        proof {
            if full_input.start < full_input.end {
                assert(full_input.text()[0] == full@[full_input.start as int]);
            }
        }
        return Err(
            Error {
                location: piece(full, full_input.start, full_input.start),
                reason: "Expected a `(`",
                partial_parse: Span { inner: AST::List(Vec::new()), full_string: full, start: full_input.start, end: full_input.start },
            },
        );
    }
    assert(full_input.text()[0] == full@[full_input.start as int]);
    let mut input = piece(full, full_input.start + 1, full_input.end);
    let mut result: Vec<Span<'a, AST<'a>>> = Vec::new();
    loop
        invariant
            input.full_string == full,
            full_input.full_string == full,
            full_input.wf(),
            full_input.start < input.start <= input.end,
            input.end == full_input.end,
            full@[full_input.start as int] == '(',
            forall|j: int| 0 <= j < result@.len() ==> (#[trigger] result@[j]).full_string == full && ast_wf(result@[j]),
            elements_fit(full@, full_input.end as int, full_input.start as int, result@, result@.len() as int),
            input.start == element_end(result@, full_input.start as int, result@.len() as int),
        decreases input.end - input.start,
    {
        let (_, after) = match parse_whitespace(input) {
            Ok(v) => v,
            Err(e) => {
                return Err(e);
            },
        };
        let ghost prev_start = input.start as int;
        input = after;
        if input.start < input.end && full.get_char(input.start) == ')' {
            return Ok(
                (
                    Span { inner: result, full_string: full, start: full_input.start, end: input.start + 1 },
                    piece(full, input.start + 1, input.end),
                ),
            );
        }
        let (element, rest) = match parse_ast(piece(full, input.start, input.end)) {
            Ok(v) => v,
            Err(e) => {
                return Err(
                    Error {
                        location: e.location,
                        reason: e.reason,
                        partial_parse: Span { inner: AST::List(result), full_string: full, start: full_input.start, end: full_input.start },
                    },
                );
            },
        };
        let ghost before = result@;
        proof {
            lemma_next_token_settled(full@, prev_start, full_input.end as int);
            lemma_list_step(full@, full_input.end as int, full_input.start as int, before, element, prev_start);
        }
        result.push(element);
        input = rest;
    }
}

/// Reads one expression after optional white space: a string, a number, an identifier or a list,
/// told apart by its first character.
#[verifier::rlimit(50)]
pub fn parse_ast<'a>(input: Span<'a, ()>) -> (r: Result<(Span<'a, AST<'a>>, Span<'a, ()>), ParseError<'a>>)
    requires
        input.wf(),
    ensures
        r matches Err(e) ==> e.reason@ != end_of_file_reason(),
        r matches Ok((node, rest)) ==> parsed_from(input, node, rest) && ast_wf(node),
        expression_read(r, input.full_string@, input.start + whitespace_end(input.text()), input.end as int),
        r matches Err(e) ==> e.location.full_string == input.full_string,
    decreases input.end - input.start, 1nat,
{
    proof {
        lemma_reasons();
    }
    let (_, inp) = match parse_whitespace(input) {
        Ok(v) => v,
        Err(e) => {
            return Err(e);
        },
    };
    let full = inp.full_string;
    if inp.start == inp.end {
        return Err(
            Error {
                location: piece(full, inp.start, inp.start),
                reason: "Unexpected end of input",
                partial_parse: Span { inner: AST::List(Vec::new()), full_string: full, start: inp.start, end: inp.start },
            },
        );
    }
    let c = full.get_char(inp.start);
    assert(inp.text()[0] == c);
    assert(inp.text() == full@.subrange(input.start + whitespace_end(input.text()), input.end as int));
    if c == '"' {
        string_ast(inp)
    } else if '0' <= c && c <= '9' {
        number_ast(inp)
    } else if ('a' <= c && c <= 'z') || ('A' <= c && c <= 'Z') {
        identifier_ast(inp)
    } else if c == '(' {
        match parse_list(inp) {
            Ok((l, rest)) => {
                let node = Span { inner: AST::List(l.inner), full_string: l.full_string, start: l.start, end: l.end };
                proof {
                    lemma_list_wf_from(node, node.inner->List_0@.len() as int);
                }
                Ok((node, rest))
            },
            Err(e) => Err(e),
        }
    } else {
        Err(
            Error {
                location: piece(full, inp.start, inp.start + 1),
                reason: "Unexpected character. Expected `\"`, 0-9, a-z, A-Z or `(`.",
                partial_parse: Span { inner: AST::List(Vec::new()), full_string: full, start: inp.start, end: inp.start + 1 },
            },
        )
    }
}

fn string_ast<'a>(input: Span<'a, ()>) -> (r: Result<(Span<'a, AST<'a>>, Span<'a, ()>), ParseError<'a>>)
    requires
        input.wf(),
        input.start < input.end,
        input.text()[0] == '"',
    ensures
        r matches Err(e) ==> e.reason@ != end_of_file_reason(),
        r matches Ok((node, rest)) ==> parsed_from(input, node, rest) && ast_wf(node),
        expression_read(r, input.full_string@, input.start as int, input.end as int),
        r matches Err(e) ==> e.location.full_string == input.full_string,
{
    proof {
        lemma_reasons();
    }
    match parse_string(input) {
        Ok((s, rest)) => Ok((Span { inner: AST::String(s.inner), full_string: s.full_string, start: s.start, end: s.end }, rest)),
        Err(e) => Err(e),
    }
}

fn number_ast<'a>(input: Span<'a, ()>) -> (r: Result<(Span<'a, AST<'a>>, Span<'a, ()>), ParseError<'a>>)
    requires
        input.wf(),
        input.start < input.end,
        is_ascii_digit(input.text()[0]),
    ensures
        r matches Err(e) ==> e.reason@ != end_of_file_reason(),
        r matches Ok((node, rest)) ==> parsed_from(input, node, rest) && ast_wf(node),
        expression_read(r, input.full_string@, input.start as int, input.end as int),
        r matches Err(e) ==> e.location.full_string == input.full_string,
{
    proof {
        lemma_reasons();
    }
    match parse_number(input) {
        Ok((n, rest)) => {
            proof {
                let t = input.text();
                let e = digits_end(t);
                let d = t.subrange(0, e);
                assert(crate::text::int_value(d) is Some);
                if e == 0 {
                    assert(d.len() == 0);
                }
            }
            Ok((Span { inner: AST::Number(n.inner), full_string: n.full_string, start: n.start, end: n.end }, rest))
        },
        Err(e) => Err(e),
    }
}

fn identifier_ast<'a>(input: Span<'a, ()>) -> (r: Result<(Span<'a, AST<'a>>, Span<'a, ()>), ParseError<'a>>)
    requires
        input.wf(),
        input.start < input.end,
        crate::datetime::is_alpha(input.text()[0]),
    ensures
        r matches Err(e) ==> e.reason@ != end_of_file_reason(),
        r matches Ok((node, rest)) ==> parsed_from(input, node, rest) && ast_wf(node),
        expression_read(r, input.full_string@, input.start as int, input.end as int),
        r matches Err(e) ==> e.location.full_string == input.full_string,
{
    proof {
        lemma_reasons();
    }
    match parse_identifier(input) {
        Ok((id, rest)) => Ok((Span { inner: AST::Identifier(id.inner), full_string: id.full_string, start: id.start, end: id.end }, rest)),
        Err(e) => Err(e),
    }
}

/// Reads a whole text as one expression; anything after it but nothing is an error.
pub fn parse_root<'a>(input: Span<'a, ()>) -> (r: Result<(Span<'a, AST<'a>>, Span<'a, ()>), ParseError<'a>>)
    requires
        input.wf(),
    ensures
        r matches Ok((node, rest)) ==> parsed_from(input, node, rest) && rest.start == rest.end && ast_wf(node)
            && node_fits(input.full_string@, input.start + whitespace_end(input.text()), input.end as int, node),
        r matches Err(e) ==> (e.reason@ == end_of_file_reason() ==> e.location.full_string == input.full_string
            && e.location.start < e.location.end && e.location.end == input.end && parsed_from(input, e.partial_parse, e.location)
            && ast_wf(e.partial_parse) && node_fits(
            input.full_string@,
            input.start + whitespace_end(input.text()),
            input.end as int,
            e.partial_parse,
        )),
        r matches Err(e) ==> (e.reason@ != end_of_file_reason() ==> expression_read(
            r,
            input.full_string@,
            input.start + whitespace_end(input.text()),
            input.end as int,
        )),
        r matches Err(e) ==> e.location.full_string == input.full_string,
{
    let (ast, rest) = match parse_ast(input) {
        Ok(v) => v,
        Err(e) => {
            return Err(e);
        },
    };
    if rest.start != rest.end {
        Err(Error { location: rest, reason: "Expected end of file.", partial_parse: ast })
    } else {
        Ok((ast, rest))
    }
}

/// The semantic token of a leaf: its line and column (the column in bytes), its length in
/// bytes, and its kind (2 for an identifier, 1 for a number, 0 for a string).
pub open spec fn leaf_token<'a>(e: Span<'a, AST<'a>>, kind: u64) -> (u64, u64, u64, u64, u64) {
    let p = line_col(e.full_string@.subrange(0, e.start as int));
    (p.0 as u64, p.1 as u64, utf8_count(e.text()) as u64, kind, 0)
}

/// The semantic tokens of an expression: one per leaf, in order.
pub open spec fn tokens<'a>(e: Span<'a, AST<'a>>) -> Seq<(u64, u64, u64, u64, u64)>
    decreases e, 1nat, 0int,
{
    match e.inner {
        AST::Identifier(_) => seq![leaf_token(e, 2)],
        AST::Number(_) => seq![leaf_token(e, 1)],
        AST::String(_) => seq![leaf_token(e, 0)],
        AST::List(l) => list_tokens(e, l@.len() as int),
    }
}

/// The semantic tokens of the first `n` elements of the list `e`.
pub open spec fn list_tokens<'a>(e: Span<'a, AST<'a>>, n: int) -> Seq<(u64, u64, u64, u64, u64)>
    decreases e, 0nat, n,
{
    if e.inner is List && 0 < n <= e.inner->List_0@.len() {
        list_tokens(e, n - 1) + tokens(e.inner->List_0@[n - 1])
    } else {
        Seq::empty()
    }
}

/// Every span of the tree lies within the text of the root.
pub open spec fn ast_wf<'a>(e: Span<'a, AST<'a>>) -> bool
    decreases e, 1nat, 0int,
{
    e.wf() && match e.inner {
        AST::List(l) => list_wf(e, l@.len() as int),
        _ => true,
    }
}

/// The first `n` elements of the list `e` lie within their text.
pub open spec fn list_wf<'a>(e: Span<'a, AST<'a>>, n: int) -> bool
    decreases e, 0nat, n,
{
    if e.inner is List && 0 < n <= e.inner->List_0@.len() {
        list_wf(e, n - 1) && e.inner->List_0@[n - 1].full_string == e.full_string && ast_wf(e.inner->List_0@[n - 1])
    } else {
        true
    }
}

proof fn lemma_list_wf<'a>(e: Span<'a, AST<'a>>, n: int, j: int)
    requires
        e.inner is List,
        0 <= j < n <= e.inner->List_0@.len(),
        list_wf(e, n),
    ensures
        ast_wf(e.inner->List_0@[j]),
        e.inner->List_0@[j].full_string == e.full_string,
    decreases n,
{
    if j < n - 1 {
        lemma_list_wf(e, n - 1, j);
    }
}

proof fn lemma_list_wf_from<'a>(e: Span<'a, AST<'a>>, n: int)
    requires
        e.inner is List,
        0 <= n <= e.inner->List_0@.len(),
        forall|j: int| 0 <= j < n ==> (#[trigger] e.inner->List_0@[j]).full_string == e.full_string && ast_wf(e.inner->List_0@[j]),
    ensures
        list_wf(e, n),
    decreases n,
{
    if n > 0 {
        lemma_list_wf_from(e, n - 1);
    }
}

/// The semantic tokens of an expression, one per leaf, in order.
pub fn visitor<'a>(element: &Span<'a, AST<'a>>) -> (r: Vec<(u64, u64, u64, u64, u64)>)
    requires
        ast_wf(*element),
        element.full_string@.len() * 4 <= usize::MAX,
    ensures
        r@ == tokens(*element),
    decreases element,
{
    match &element.inner {
        AST::Identifier(_) => {
            let pos = element.start_line_column();
            let len = utf8_len_of(element.full_string, element.start, element.end) as u64;
            vec![(pos.0 as u64, pos.1 as u64, len, 2, 0)]
        },
        AST::Number(_) => {
            let pos = element.start_line_column();
            let len = utf8_len_of(element.full_string, element.start, element.end) as u64;
            vec![(pos.0 as u64, pos.1 as u64, len, 1, 0)]
        },
        AST::String(_) => {
            let pos = element.start_line_column();
            let len = utf8_len_of(element.full_string, element.start, element.end) as u64;
            vec![(pos.0 as u64, pos.1 as u64, len, 0, 0)]
        },
        AST::List(list) => {
            let mut out: Vec<(u64, u64, u64, u64, u64)> = Vec::new();
            let mut i: usize = 0;
            while i < list.len()
                invariant
                    i <= list@.len(),
                    element.inner == AST::List(*list),
                    ast_wf(*element),
                    element.full_string@.len() * 4 <= usize::MAX,
                    out@ == list_tokens(*element, i as int),
                decreases list@.len() - i,
            {
                proof {
                    assert(decreases_to!(*element => element.inner));
                    assert(decreases_to!(element.inner => element.inner->List_0));
                    assert(decreases_to!(element.inner->List_0 => element.inner->List_0[i as int]));
                    lemma_list_wf(*element, list@.len() as int, i as int);
                }
                let mut sub = visitor(&list[i]);
                let ghost before = out@;
                out.append(&mut sub);
                proof {
                    assert(out@ == before + tokens(list@[i as int]));
                }
                i = i + 1;
            }
            out
        },
    }
}

} // verus!
