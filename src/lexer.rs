//! Tokenizer: splits a document into entries, comments and blank lines.
//!
//! The grammar is stated by the spec functions below over the input bytes and a
//! position in them; the executable parser is proved to follow it exactly.

use vstd::prelude::*;
use vstd::slice::{slice_subrange, slice_to_vec};

verus! {

pub const OPEN: u8 = 0x7b;

pub const CLOSE: u8 = 0x7d;

pub const HASH: u8 = 0x23;

pub const SLASH: u8 = 0x2f;

pub const LF: u8 = 0x0a;

pub const CR: u8 = 0x0d;

/// Longest excerpt of the input that an error message quotes.
pub const SNIPPET_LEN: usize = 20;

pub open spec fn is_space(b: u8) -> bool {
    b == 0x20 || b == 0x09
}

pub open spec fn is_digit(b: u8) -> bool {
    0x30 <= b <= 0x39
}

/// First position at or after `i` that is not a space or a tab.
pub open spec fn span_spaces(s: Seq<u8>, i: int) -> int
    decreases s.len() - i,
{
    if 0 <= i < s.len() && is_space(s[i]) {
        span_spaces(s, i + 1)
    } else {
        i
    }
}

/// First position at or after `i` that is not a decimal digit.
pub open spec fn span_digits(s: Seq<u8>, i: int) -> int
    decreases s.len() - i,
{
    if 0 <= i < s.len() && is_digit(s[i]) {
        span_digits(s, i + 1)
    } else {
        i
    }
}

/// First position at or after `i` holding `a` or `b`, or the end of `s`.
pub open spec fn find_either(s: Seq<u8>, i: int, a: u8, b: u8) -> int
    decreases s.len() - i,
{
    if 0 <= i < s.len() && s[i] != a && s[i] != b {
        find_either(s, i + 1, a, b)
    } else {
        i
    }
}

/// End of the physical line that holds position `i`.
pub open spec fn line_end(s: Seq<u8>, i: int) -> int {
    find_either(s, i, LF, CR)
}

/// Value of a run of decimal digits.
pub open spec fn decimal(d: Seq<u8>) -> nat
    decreases d.len(),
{
    if d.len() == 0 {
        0
    } else {
        decimal(d.drop_last()) * 10 + (d.last() as int - 0x30) as nat
    }
}

/// Model of an entry record.
pub struct EntryView {
    pub index: u32,
    pub secondary: Seq<u8>,
    pub value: Seq<u8>,
    pub comment: Option<Seq<u8>>,
}

/// Model of one line of a document.
pub enum Token {
    Entry(EntryView),
    Break,
    Comment(Seq<u8>),
}

/// What parsing one line gives: the line and where it ends, or the position of
/// a hard error.
pub enum LineOutcome {
    Parsed(Token, int),
    Failed(int),
}

/// What parsing a run of lines gives: the lines and where parsing stopped, or
/// the position of a hard error.
pub enum DocOutcome {
    Lines(Seq<Token>, int),
    Failed(int),
}

/// A comment starting at `i`: optional spaces, `#` or `//`, optional spaces, and
/// the rest of the physical line as its text.
pub open spec fn comment_at(s: Seq<u8>, i: int) -> Option<(Seq<u8>, int)> {
    let j = span_spaces(s, i);
    let t = if j < s.len() && s[j] == HASH {
        j + 1
    } else if j < s.len() && s[j] == SLASH && j + 1 < s.len() && s[j + 1] == SLASH {
        j + 2
    } else {
        -1
    };
    if t < 0 {
        None
    } else {
        let a = span_spaces(s, t);
        let e = line_end(s, a);
        Some((s.subrange(a, e), e))
    }
}

/// The entry whose opening `{` stands at `j`. Past that `{` the parse is
/// committed: a missing or overflowing index, a missing delimiter or an
/// unterminated field is a hard error.
pub open spec fn entry_at(s: Seq<u8>, j: int) -> LineOutcome {
    let d0 = j + 1;
    let d1 = span_digits(s, d0);
    let a = d1 + 1;
    let f1 = find_either(s, a + 1, CLOSE, CLOSE);
    let b = f1 + 1;
    let f2 = find_either(s, b + 1, CLOSE, CLOSE);
    let c = f2 + 1;
    if d1 == d0 || decimal(s.subrange(d0, d1)) > u32::MAX {
        LineOutcome::Failed(d0)
    } else if !(d1 < s.len() && s[d1] == CLOSE) {
        LineOutcome::Failed(d1)
    } else if !(a < s.len() && s[a] == OPEN) || f1 >= s.len() {
        LineOutcome::Failed(a)
    } else if !(b < s.len() && s[b] == OPEN) || f2 >= s.len() {
        LineOutcome::Failed(b)
    } else {
        let (comment, end) = match comment_at(s, c) {
            Some((t, e)) => (Some(t), e),
            None => (None, c),
        };
        LineOutcome::Parsed(
            Token::Entry(
                EntryView {
                    index: decimal(s.subrange(d0, d1)) as u32,
                    secondary: s.subrange(a + 1, f1),
                    value: s.subrange(b + 1, f2),
                    comment,
                },
            ),
            end,
        )
    }
}

/// The line starting at `i`: a comment, else an entry after optional spaces,
/// else a blank line made of optional spaces.
pub open spec fn line_at(s: Seq<u8>, i: int) -> LineOutcome {
    let j = span_spaces(s, i);
    match comment_at(s, i) {
        Some((t, e)) => LineOutcome::Parsed(Token::Comment(t), e),
        None => if j < s.len() && s[j] == OPEN {
            entry_at(s, j)
        } else {
            LineOutcome::Parsed(Token::Break, j)
        },
    }
}

/// Length of the line break (`\n` or `\r\n`) at `e`, 0 when there is none.
pub open spec fn break_len(s: Seq<u8>, e: int) -> int {
    if 0 <= e < s.len() && s[e] == LF {
        1
    } else if 0 <= e && e + 1 < s.len() && s[e] == CR && s[e + 1] == LF {
        2
    } else {
        0
    }
}

/// The lines from position `i` on: one line, and after each line break one
/// more, until a line is followed by no line break.
pub open spec fn lines_from(s: Seq<u8>, i: int) -> DocOutcome
    decreases s.len() - i,
{
    match line_at(s, i) {
        LineOutcome::Failed(p) => DocOutcome::Failed(p),
        LineOutcome::Parsed(t, e) => {
            let n = e + break_len(s, e);
            if break_len(s, e) > 0 && i < n <= s.len() {
                match lines_from(s, n) {
                    DocOutcome::Failed(p) => DocOutcome::Failed(p),
                    DocOutcome::Lines(ts, r) => DocOutcome::Lines(seq![t] + ts, r),
                }
            } else {
                DocOutcome::Lines(seq![t], e)
            }
        },
    }
}

/// At most the first `SNIPPET_LEN` bytes of `b`, each shown as the character of
/// that code point.
pub open spec fn snippet(b: Seq<u8>) -> Seq<char> {
    let n = if b.len() < SNIPPET_LEN {
        b.len() as int
    } else {
        SNIPPET_LEN as int
    };
    b.subrange(0, n).map_values(|x: u8| (x as u32) as char)
}

pub open spec fn syntax_error(s: Seq<u8>, p: int) -> Seq<char> {
    "Malformed entry at: "@ + snippet(s.subrange(p, s.len() as int))
}

pub open spec fn trailing_error(s: Seq<u8>, r: int) -> Seq<char> {
    "Failed to exhaust input to the end: "@ + snippet(s.subrange(r, s.len() as int))
}

/// The document that `s` holds, or the message of the error that it gives.
/// With `exhaustive`, input left over after the last line is an error.
pub open spec fn tokenize_spec(s: Seq<u8>, exhaustive: bool) -> Result<Seq<Token>, Seq<char>> {
    match lines_from(s, 0) {
        DocOutcome::Failed(p) => Err(syntax_error(s, p)),
        DocOutcome::Lines(ts, r) => if exhaustive && r < s.len() {
            Err(trailing_error(s, r))
        } else {
            Ok(ts)
        },
    }
}

/// A parsed entry record.
#[derive(Debug, PartialEq)]
pub struct Entry {
    pub index: u32,
    pub secondary: Vec<u8>,
    pub value: Vec<u8>,
    pub comment: Option<Vec<u8>>,
}

/// One line of a document.
#[derive(Debug, PartialEq)]
pub enum Line {
    Entry(Entry),
    Break,
    Comment(Vec<u8>),
}

/// A parsed document: its lines in source order.
#[derive(Debug, PartialEq)]
pub struct Msg {
    pub lines: Vec<Line>,
}

pub open spec fn bytes_view(o: Option<Vec<u8>>) -> Option<Seq<u8>> {
    match o {
        Some(v) => Some(v@),
        None => None,
    }
}

impl View for Entry {
    type V = EntryView;

    open spec fn view(&self) -> EntryView {
        EntryView {
            index: self.index,
            secondary: self.secondary@,
            value: self.value@,
            comment: bytes_view(self.comment),
        }
    }
}

impl View for Line {
    type V = Token;

    open spec fn view(&self) -> Token {
        match self {
            Line::Entry(e) => Token::Entry(e@),
            Line::Break => Token::Break,
            Line::Comment(c) => Token::Comment(c@),
        }
    }
}

impl View for Msg {
    type V = Seq<Token>;

    open spec fn view(&self) -> Seq<Token> {
        self.lines@.map_values(|l: Line| l@)
    }
}

pub open spec fn line_result_view(r: Result<(Line, usize), usize>) -> LineOutcome {
    match r {
        Ok((l, e)) => LineOutcome::Parsed(l@, e as int),
        Err(p) => LineOutcome::Failed(p as int),
    }
}

fn skip_spaces(s: &[u8], i: usize) -> (r: usize)
    requires
        i <= s@.len(),
    ensures
        r == span_spaces(s@, i as int),
        i <= r <= s@.len(),
{
    let mut j = i;
    while j < s.len() && (s[j] == 0x20 || s[j] == 0x09)
        invariant
            i <= j <= s@.len(),
            span_spaces(s@, j as int) == span_spaces(s@, i as int),
        decreases s@.len() - j,
    {
        j = j + 1;
    }
    j
}

fn skip_digits(s: &[u8], i: usize) -> (r: usize)
    requires
        i <= s@.len(),
    ensures
        r == span_digits(s@, i as int),
        i <= r <= s@.len(),
        forall|k: int| i <= k < r ==> is_digit(#[trigger] s@[k]),
{
    let mut j = i;
    while j < s.len() && 0x30 <= s[j] && s[j] <= 0x39
        invariant
            i <= j <= s@.len(),
            span_digits(s@, j as int) == span_digits(s@, i as int),
            forall|k: int| i <= k < j ==> is_digit(#[trigger] s@[k]),
        decreases s@.len() - j,
    {
        j = j + 1;
    }
    j
}

fn find_byte(s: &[u8], i: usize, a: u8, b: u8) -> (r: usize)
    requires
        i <= s@.len(),
    ensures
        r == find_either(s@, i as int, a, b),
        i <= r <= s@.len(),
{
    let mut j = i;
    while j < s.len() && s[j] != a && s[j] != b
        invariant
            i <= j <= s@.len(),
            find_either(s@, j as int, a, b) == find_either(s@, i as int, a, b),
        decreases s@.len() - j,
    {
        j = j + 1;
    }
    j
}

fn copy_range(s: &[u8], a: usize, b: usize) -> (r: Vec<u8>)
    requires
        a <= b <= s@.len(),
    ensures
        r@ == s@.subrange(a as int, b as int),
{
    slice_to_vec(slice_subrange(s, a, b))
}

fn comment(s: &[u8], i: usize) -> (r: Option<(Vec<u8>, usize)>)
    requires
        i <= s@.len(),
    ensures
        match comment_at(s@, i as int) {
            Some((t, e)) => r matches Some((c, e2)) && c@ == t && e2 == e && i <= e <= s@.len(),
            None => r is None,
        },
{
    let j = skip_spaces(s, i);
    let t: usize;
    if j < s.len() && s[j] == HASH {
        t = j + 1;
    } else if j < s.len() && s[j] == SLASH && j + 1 < s.len() && s[j + 1] == SLASH {
        t = j + 2;
    } else {
        return None;
    }
    let a = skip_spaces(s, t);
    let e = find_byte(s, a, LF, CR);
    Some((copy_range(s, a, e), e))
}

proof fn lemma_decimal_prefix(d: Seq<u8>, k: int)
    requires
        0 <= k <= d.len(),
    ensures
        decimal(d.subrange(0, k)) <= decimal(d),
    decreases d.len(),
{
    if k < d.len() {
        lemma_decimal_prefix(d.drop_last(), k);
        assert(d.drop_last().subrange(0, k) =~= d.subrange(0, k));
    } else {
        assert(d.subrange(0, k) =~= d);
    }
}

/// The value of the digits `s[d0..d1]`, or `None` when it does not fit a `u32`.
fn read_index(s: &[u8], d0: usize, d1: usize) -> (r: Option<u32>)
    requires
        d0 <= d1 <= s@.len(),
        forall|k: int| d0 <= k < d1 ==> is_digit(#[trigger] s@[k]),
    ensures
        r matches Some(v) ==> v as nat == decimal(s@.subrange(d0 as int, d1 as int)),
        r is None ==> decimal(s@.subrange(d0 as int, d1 as int)) > u32::MAX,
{
    let mut v: u32 = 0;
    let mut k = d0;
    while k < d1
        invariant
            d0 <= k <= d1 <= s@.len(),
            forall|m: int| d0 <= m < d1 ==> is_digit(#[trigger] s@[m]),
            v as nat == decimal(s@.subrange(d0 as int, k as int)),
        decreases d1 - k,
    {
        let digit = (s[k] - 0x30) as u32;
        let ghost prefix = s@.subrange(d0 as int, k + 1);
        assert(prefix.drop_last() =~= s@.subrange(d0 as int, k as int));
        assert(decimal(prefix) == v * 10 + digit);
        if v > (u32::MAX - digit) / 10 {
            proof {
                assert(v * 10 + digit > u32::MAX) by (nonlinear_arith)
                    requires
                        v > (u32::MAX - digit) / 10,
                        digit <= 9,
                ;
                let full = s@.subrange(d0 as int, d1 as int);
                assert(full.subrange(0, k + 1 - d0) =~= prefix);
                lemma_decimal_prefix(full, k + 1 - d0);
            }
            return None;
        }
        assert(v * 10 + digit <= u32::MAX) by (nonlinear_arith)
            requires
                v <= (u32::MAX - digit) / 10,
                digit <= 9,
        ;
        v = v * 10 + digit;
        k = k + 1;
    }
    Some(v)
}

fn entry(s: &[u8], j: usize) -> (r: Result<(Line, usize), usize>)
    requires
        j < s@.len(),
        s@[j as int] == OPEN,
    ensures
        line_result_view(r) == entry_at(s@, j as int),
        r matches Err(p) ==> p <= s@.len(),
        r matches Ok((_, e)) ==> j < e <= s@.len(),
{
    let n = s.len();
    let d0 = j + 1;
    let d1 = skip_digits(s, d0);
    if d1 == d0 {
        return Err(d0);
    }
    let index = match read_index(s, d0, d1) {
        Some(v) => v,
        None => {
            return Err(d0);
        },
    };
    if !(d1 < s.len() && s[d1] == CLOSE) {
        return Err(d1);
    }
    let a = d1 + 1;
    if !(a < s.len() && s[a] == OPEN) {
        return Err(a);
    }
    let f1 = find_byte(s, a + 1, CLOSE, CLOSE);
    if f1 >= s.len() {
        return Err(a);
    }
    let b = f1 + 1;
    if !(b < s.len() && s[b] == OPEN) {
        return Err(b);
    }
    let f2 = find_byte(s, b + 1, CLOSE, CLOSE);
    if f2 >= s.len() {
        return Err(b);
    }
    let c = f2 + 1;
    let secondary = copy_range(s, a + 1, f1);
    let value = copy_range(s, b + 1, f2);
    let (comment, end) = match comment(s, c) {
        Some((t, e)) => (Some(t), e),
        None => (None, c),
    };
    let e = Entry { index, secondary, value, comment };
    proof {
        assert(bytes_view(e.comment) == match comment_at(s@, c as int) {
            Some((t, _)) => Some(t),
            None => None::<Seq<u8>>,
        });
    }
    Ok((Line::Entry(e), end))
}

fn line(s: &[u8], i: usize) -> (r: Result<(Line, usize), usize>)
    requires
        i <= s@.len(),
    ensures
        line_result_view(r) == line_at(s@, i as int),
        r matches Err(p) ==> p <= s@.len(),
        r matches Ok((_, e)) ==> i <= e <= s@.len(),
{
    match comment(s, i) {
        Some((t, e)) => Ok((Line::Comment(t), e)),
        None => {
            let j = skip_spaces(s, i);
            if j < s.len() && s[j] == OPEN {
                entry(s, j)
            } else {
                Ok((Line::Break, j))
            }
        },
    }
}

/// The lines `ls` put before what parsing the rest gives.
pub open spec fn prepend(ls: Seq<Token>, d: DocOutcome) -> DocOutcome {
    match d {
        DocOutcome::Failed(p) => DocOutcome::Failed(p),
        DocOutcome::Lines(ts, r) => DocOutcome::Lines(ls + ts, r),
    }
}

/// Relies on `String::push` (with `char::from` on a byte): appends the
/// character whose code point is the byte.
#[verifier::external_body]
fn push_byte_char(s: &mut String, b: u8)
    ensures
        final(s)@ == old(s)@.push((b as u32) as char),
{
    s.push(char::from(b))
}

/// `prefix` followed by an excerpt of `s` from position `p`.
pub(crate) fn error_text(prefix: &str, s: &[u8], p: usize) -> (r: String)
    requires
        p <= s@.len(),
    ensures
        r@ == prefix@ + snippet(s@.subrange(p as int, s@.len() as int)),
{
    let mut r = String::from_str(prefix);
    let n: usize = if s.len() - p < SNIPPET_LEN {
        s.len() - p
    } else {
        SNIPPET_LEN
    };
    let ghost rest = s@.subrange(p as int, s@.len() as int);
    let mut k: usize = 0;
    while k < n
        invariant
            p + n <= s@.len() <= usize::MAX,
            rest == s@.subrange(p as int, s@.len() as int),
            n == (if rest.len() < SNIPPET_LEN { rest.len() as int } else { SNIPPET_LEN as int }),
            k <= n,
            r@ == prefix@ + rest.subrange(0, k as int).map_values(|x: u8| (x as u32) as char),
        decreases n - k,
    {
        push_byte_char(&mut r, s[p + k]);
        k = k + 1;
        assert(rest.subrange(0, k as int).map_values(|x: u8| (x as u32) as char) =~= rest.subrange(
            0,
            k - 1,
        ).map_values(|x: u8| (x as u32) as char).push((s@[p + k - 1] as u32) as char));
    }
    r
}

/// Parses a whole document. With `exhaustive`, input left over after the last
/// line is an error that quotes its start.
pub fn tokenize_msg(input: &[u8], exhaustive: bool) -> (r: Result<Msg, String>)
    ensures
        match tokenize_spec(input@, exhaustive) {
            Ok(ts) => r matches Ok(m) && m@ == ts,
            Err(e) => r matches Err(e2) && e2@ == e,
        },
        r matches Ok(m) ==> m.lines@.len() <= input@.len() + 1,
{
    let ghost s = input@;
    let mut lines: Vec<Line> = Vec::new();
    let mut pos: usize = 0;
    loop
        invariant
            s == input@,
            pos <= s.len(),
            lines@.len() <= pos,
            lines_from(s, 0) == prepend(lines@.map_values(|l: Line| l@), lines_from(s, pos as int)),
        decreases s.len() - pos,
    {
        match line(input, pos) {
            Err(p) => {
                return Err(error_text("Malformed entry at: ", input, p));
            },
            Ok((l, e)) => {
                let ghost before = lines@.map_values(|l: Line| l@);
                let ghost t = l@;
                lines.push(l);
                assert(lines@.map_values(|l: Line| l@) =~= before.push(t));
                let n = input.len();
                let bl: usize = if e < n && input[e] == LF {
                    1
                } else if e < n && input[e] == CR && e + 1 < n && input[e + 1] == LF {
                    2
                } else {
                    0
                };
                assert(bl == break_len(s, e as int));
                if bl == 0 {
                    assert(before + seq![t] =~= before.push(t));
                    if exhaustive && e < n {
                        return Err(error_text("Failed to exhaust input to the end: ", input, e));
                    }
                    return Ok(Msg { lines });
                }
                proof {
                    let next = (e + bl) as int;
                    match lines_from(s, next) {
                        DocOutcome::Failed(p) => {},
                        DocOutcome::Lines(ts, r) => {
                            assert(before + (seq![t] + ts) =~= before.push(t) + ts);
                        },
                    }
                }
                pos = e + bl;
            },
        }
    }
}

} // verus!
