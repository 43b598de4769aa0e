//! Recursive-descent parser for the goldenscript format. The grammar is
//! stated as spec functions over character sequences; each executable parser
//! is proved to return exactly what the grammar says.
//!
//! A script is a sequence of blocks. Each block holds command lines
//! (with optional silencing parentheses, prefix, failure marker, arguments
//! and tags), a `---` separator, and an output region that ends at the first
//! blank line. Comments start with `#` or `//`. Strings are bare words or
//! quoted with `'` or `"` and support the escapes
//! `\\ \' \" \0 \n \r \t \xHH \u{H..H}`.

use vstd::prelude::*;

use crate::command::{Argument, ArgumentV, Block, BlockV, Command, CommandV};
use crate::text::{char_from_u32, chars_to_string};

verus! {

// ---------------------------------------------------------------------------
// Character classes
// ---------------------------------------------------------------------------
/// Space or tab: the characters that separate tokens within a line.
pub open spec fn is_space(c: char) -> bool {
    c == ' ' || c == '\t'
}

/// ASCII alphanumeric.
pub open spec fn is_ascii_alnum(c: char) -> bool {
    ('0' as u32 <= c as u32 && c as u32 <= '9' as u32) || ('a' as u32 <= c as u32 && c as u32
        <= 'z' as u32) || ('A' as u32 <= c as u32 && c as u32 <= 'Z' as u32)
}

/// A character that may start an unquoted string.
pub open spec fn is_unquoted_start(c: char) -> bool {
    is_ascii_alnum(c) || c == '_'
}

/// A character that may continue an unquoted string.
pub open spec fn is_unquoted_char(c: char) -> bool {
    is_ascii_alnum(c) || c == '_' || c == '-' || c == '.' || c == '/' || c == '@'
}

/// The value of a hexadecimal digit, if the character is one.
pub open spec fn hex_val(c: char) -> Option<u32> {
    let u = c as u32;
    if '0' as u32 <= u && u <= '9' as u32 {
        Some((u - '0' as u32) as u32)
    } else if 'a' as u32 <= u && u <= 'f' as u32 {
        Some((u - 'a' as u32 + 10) as u32)
    } else if 'A' as u32 <= u && u <= 'F' as u32 {
        Some((u - 'A' as u32 + 10) as u32)
    } else {
        None
    }
}

fn exec_is_space(c: char) -> (r: bool)
    ensures
        r == is_space(c),
{
    c == ' ' || c == '\t'
}

fn exec_is_ascii_alnum(c: char) -> (r: bool)
    ensures
        r == is_ascii_alnum(c),
{
    let u = c as u32;
    ('0' as u32 <= u && u <= '9' as u32) || ('a' as u32 <= u && u <= 'z' as u32) || ('A' as u32
        <= u && u <= 'Z' as u32)
}

fn exec_is_unquoted_start(c: char) -> (r: bool)
    ensures
        r == is_unquoted_start(c),
{
    exec_is_ascii_alnum(c) || c == '_'
}

fn exec_is_unquoted_char(c: char) -> (r: bool)
    ensures
        r == is_unquoted_char(c),
{
    exec_is_ascii_alnum(c) || c == '_' || c == '-' || c == '.' || c == '/' || c == '@'
}

fn exec_hex_val(c: char) -> (r: Option<u32>)
    ensures
        r == hex_val(c),
{
    let u = c as u32;
    if '0' as u32 <= u && u <= '9' as u32 {
        Some(u - '0' as u32)
    } else if 'a' as u32 <= u && u <= 'f' as u32 {
        Some(u - 'a' as u32 + 10)
    } else if 'A' as u32 <= u && u <= 'F' as u32 {
        Some(u - 'A' as u32 + 10)
    } else {
        None
    }
}

// ---------------------------------------------------------------------------
// Positions: lines and columns
// ---------------------------------------------------------------------------
/// The 1-based line number of position `p`: one more than the number of
/// newlines before it.
pub open spec fn line_of(s: Seq<char>, p: int) -> int
    decreases p, when 0 <= p
{
    if p <= 0 {
        1
    } else {
        line_of(s, p - 1) + if s[p - 1] == '\n' {
            1int
        } else {
            0int
        }
    }
}

/// The 1-based column of position `p`: the number of characters since the
/// start of its line, plus one.
pub open spec fn col_of(s: Seq<char>, p: int) -> int
    decreases p, when 0 <= p
{
    if p <= 0 {
        1
    } else if s[p - 1] == '\n' {
        1
    } else {
        col_of(s, p - 1) + 1
    }
}

/// Computes the line and column of a position.
fn line_col_at(s: &Vec<char>, pos: usize) -> (r: (usize, usize))
    requires
        pos <= s@.len(),
        s@.len() < usize::MAX,
    ensures
        r.0 as int == line_of(s@, pos as int),
        r.1 as int == col_of(s@, pos as int),
{
    let mut line: usize = 1;
    let mut col: usize = 1;
    let mut i: usize = 0;
    while i < pos
        invariant
            i <= pos <= s@.len() < usize::MAX,
            line as int == line_of(s@, i as int),
            col as int == col_of(s@, i as int),
            line <= i + 1,
            col <= i + 1,
        decreases pos - i,
    {
        if s[i] == '\n' {
            line = line + 1;
            col = 1;
        } else {
            col = col + 1;
        }
        i = i + 1;
    }
    (line, col)
}

// ---------------------------------------------------------------------------
// Parse errors
// ---------------------------------------------------------------------------
/// A syntax error, with its position in the script and the text of the line
/// it occurred on.
#[derive(Clone, Debug, PartialEq, Eq)]
pub struct ParseError {
    /// 1-based line number of the error.
    pub line: usize,
    /// 1-based column (in characters) of the error.
    pub column: usize,
    /// The text of the error's line, up to the error position's line end.
    pub snippet: String,
}

/// The first position at or after `p` whose character ends a line (or the
/// end of the text).
pub open spec fn not_eol_end(s: Seq<char>, p: int) -> int
    decreases s.len() - p, when 0 <= p <= s.len()
{
    if p < s.len() && s[p] != '\r' && s[p] != '\n' {
        not_eol_end(s, p + 1)
    } else {
        p
    }
}

proof fn lemma_not_eol_end_bounds(s: Seq<char>, p: int)
    requires
        0 <= p <= s.len(),
    ensures
        p <= not_eol_end(s, p) <= s.len(),
    decreases s.len() - p,
{
    if p < s.len() && s[p] != '\r' && s[p] != '\n' {
        lemma_not_eol_end_bounds(s, p + 1);
    }
}

/// Builds a parse error for the given position.
fn parse_error_at(s: &Vec<char>, pos: usize) -> (r: ParseError)
    requires
        pos <= s@.len(),
        s@.len() < usize::MAX,
    ensures
        r.line as int == line_of(s@, pos as int),
        r.column as int == col_of(s@, pos as int),
{
    let (line, col) = line_col_at(s, pos);
    let ghost end_g = not_eol_end(s@, pos as int);
    proof {
        lemma_not_eol_end_bounds(s@, pos as int);
        lemma_col_start(s@, pos as int);
    }
    let start = pos - (col - 1);
    let mut end: usize = pos;
    while end < s.len() && s[end] != '\r' && s[end] != '\n'
        invariant
            pos <= end <= s@.len(),
            not_eol_end(s@, end as int) == end_g,
            end_g <= s@.len(),
        decreases s@.len() - end,
    {
        end = end + 1;
    }
    let mut snippet_chars: Vec<char> = Vec::new();
    let mut i: usize = start;
    while i < end
        invariant
            start <= i <= end <= s@.len(),
        decreases end - i,
    {
        snippet_chars.push(s[i]);
        i = i + 1;
    }
    let snippet = chars_to_string(snippet_chars.as_slice());
    ParseError { line, column: col, snippet }
}

/// The column never runs past the position.
proof fn lemma_col_start(s: Seq<char>, p: int)
    requires
        0 <= p,
    ensures
        1 <= col_of(s, p) <= p + 1,
    decreases p,
{
    if p > 0 {
        lemma_col_start(s, p - 1);
    }
}

// ---------------------------------------------------------------------------
// Leaf grammar: spaces, line endings, comments, separator
// ---------------------------------------------------------------------------
/// The position after any run of spaces and tabs starting at `p`.
pub open spec fn skip_spaces(s: Seq<char>, p: int) -> int
    decreases s.len() - p, when 0 <= p <= s.len()
{
    if p < s.len() && is_space(s[p]) {
        skip_spaces(s, p + 1)
    } else {
        p
    }
}

proof fn lemma_skip_spaces_bounds(s: Seq<char>, p: int)
    requires
        0 <= p <= s.len(),
    ensures
        p <= skip_spaces(s, p) <= s.len(),
    decreases s.len() - p,
{
    if p < s.len() && is_space(s[p]) {
        lemma_skip_spaces_bounds(s, p + 1);
    }
}

/// Skips spaces and tabs.
fn p_skip_spaces(s: &Vec<char>, pos: usize) -> (r: usize)
    requires
        pos <= s@.len(),
        s@.len() < usize::MAX,
    ensures
        r as int == skip_spaces(s@, pos as int),
        pos <= r <= s@.len(),
{
    let mut i = pos;
    while i < s.len() && exec_is_space(s[i])
        invariant
            pos <= i <= s@.len(),
            skip_spaces(s@, pos as int) == skip_spaces(s@, i as int),
        decreases s@.len() - i,
    {
        i = i + 1;
    }
    i
}

/// A line ending: `\n` or `\r\n`. Returns the position after it.
pub open spec fn line_ending(s: Seq<char>, p: int) -> Option<int> {
    if 0 <= p < s.len() && s[p] == '\n' {
        Some(p + 1)
    } else if 0 <= p && p + 1 < s.len() && s[p] == '\r' && s[p + 1] == '\n' {
        Some(p + 2)
    } else {
        None
    }
}

/// Recognizes a line ending.
fn p_line_ending(s: &Vec<char>, pos: usize) -> (r: Option<usize>)
    requires
        pos <= s@.len(),
        s@.len() < usize::MAX,
    ensures
        match r {
            Some(e) => line_ending(s@, pos as int) == Some(e as int) && pos < e <= s@.len(),
            None => line_ending(s@, pos as int) is None,
        },
{
    if pos < s.len() && s[pos] == '\n' {
        Some(pos + 1)
    } else if pos + 1 < s.len() && s[pos] == '\r' && s[pos + 1] == '\n' {
        Some(pos + 2)
    } else {
        None
    }
}

/// A comment: `#` or `//` through the end of the line (exclusive). Returns
/// the position of the line ending (or end of text).
pub open spec fn comment_end(s: Seq<char>, p: int) -> Option<int> {
    if 0 <= p < s.len() && s[p] == '#' {
        Some(not_eol_end(s, p + 1))
    } else if 0 <= p && p + 1 < s.len() && s[p] == '/' && s[p + 1] == '/' {
        Some(not_eol_end(s, p + 2))
    } else {
        None
    }
}

/// Recognizes a comment.
fn p_comment(s: &Vec<char>, pos: usize) -> (r: Option<usize>)
    requires
        pos <= s@.len(),
        s@.len() < usize::MAX,
    ensures
        match r {
            Some(e) => comment_end(s@, pos as int) == Some(e as int) && pos < e <= s@.len(),
            None => comment_end(s@, pos as int) is None,
        },
{
    let start: usize = if pos < s.len() && s[pos] == '#' {
        pos + 1
    } else if pos + 1 < s.len() && s[pos] == '/' && s[pos + 1] == '/' {
        pos + 2
    } else {
        return None;
    };
    proof {
        lemma_not_eol_end_bounds(s@, start as int);
    }
    let mut i = start;
    while i < s.len() && s[i] != '\r' && s[i] != '\n'
        invariant
            start <= i <= s@.len(),
            not_eol_end(s@, start as int) == not_eol_end(s@, i as int),
        decreases s@.len() - i,
    {
        i = i + 1;
    }
    Some(i)
}

/// A line holding only whitespace and/or a comment, ended by a line ending or
/// by the end of the text; it must not be empty. Returns the position after.
pub open spec fn empty_or_comment_line(s: Seq<char>, p: int) -> Option<int> {
    let q = skip_spaces(s, p);
    let e = match comment_end(s, q) {
        Some(e) => e,
        None => q,
    };
    match line_ending(s, e) {
        Some(r) => Some(r),
        None => if e == s.len() && e > p {
            Some(e)
        } else {
            None
        },
    }
}

/// Recognizes a blank or comment-only line.
fn p_empty_or_comment_line(s: &Vec<char>, pos: usize) -> (r: Option<usize>)
    requires
        pos <= s@.len(),
        s@.len() < usize::MAX,
    ensures
        match r {
            Some(e) => empty_or_comment_line(s@, pos as int) == Some(e as int) && pos < e
                <= s@.len(),
            None => empty_or_comment_line(s@, pos as int) is None,
        },
{
    let q = p_skip_spaces(s, pos);
    let e = match p_comment(s, q) {
        Some(e) => e,
        None => q,
    };
    match p_line_ending(s, e) {
        Some(r) => Some(r),
        None => {
            if e == s.len() && e > pos {
                Some(e)
            } else {
                None
            }
        },
    }
}

/// The `---` separator, followed by a line ending or the end of the text.
/// Returns the position after.
pub open spec fn separator(s: Seq<char>, p: int) -> Option<int> {
    if 0 <= p && p + 3 <= s.len() && s[p] == '-' && s[p + 1] == '-' && s[p + 2] == '-' {
        match line_ending(s, p + 3) {
            Some(e) => Some(e),
            None => if p + 3 == s.len() {
                Some(p + 3)
            } else {
                None
            },
        }
    } else {
        None
    }
}

/// Recognizes the `---` separator.
fn p_separator(s: &Vec<char>, pos: usize) -> (r: Option<usize>)
    requires
        pos <= s@.len(),
        s@.len() < usize::MAX,
    ensures
        match r {
            Some(e) => separator(s@, pos as int) == Some(e as int) && pos < e <= s@.len(),
            None => separator(s@, pos as int) is None,
        },
{
    if pos < s.len() && s.len() - pos >= 3 && s[pos] == '-' && s[pos + 1] == '-' && s[pos + 2]
        == '-' {
        match p_line_ending(s, pos + 3) {
            Some(e) => Some(e),
            None => {
                if pos + 3 == s.len() {
                    Some(pos + 3)
                } else {
                    None
                }
            },
        }
    } else {
        None
    }
}

// ---------------------------------------------------------------------------
// String literals
// ---------------------------------------------------------------------------
/// The end of a run of unquoted-string characters starting at `p`.
pub open spec fn unquoted_end(s: Seq<char>, p: int) -> int
    decreases s.len() - p, when 0 <= p <= s.len()
{
    if p < s.len() && is_unquoted_char(s[p]) {
        unquoted_end(s, p + 1)
    } else {
        p
    }
}

proof fn lemma_unquoted_end_bounds(s: Seq<char>, p: int)
    requires
        0 <= p <= s.len(),
    ensures
        p <= unquoted_end(s, p) <= s.len(),
    decreases s.len() - p,
{
    if p < s.len() && is_unquoted_char(s[p]) {
        lemma_unquoted_end_bounds(s, p + 1);
    }
}

/// An unquoted string: an alphanumeric or `_` start, continued by
/// alphanumerics or `_ - . / @`.
pub open spec fn unquoted_string(s: Seq<char>, p: int) -> Option<(Seq<char>, int)> {
    if 0 <= p < s.len() && is_unquoted_start(s[p]) {
        let e = unquoted_end(s, p + 1);
        Some((s.subrange(p, e), e))
    } else {
        None
    }
}

/// Parses an unquoted string.
fn p_unquoted_string(s: &Vec<char>, pos: usize) -> (r: Option<(Vec<char>, usize)>)
    requires
        pos <= s@.len(),
        s@.len() < usize::MAX,
    ensures
        match r {
            Some((v, e)) => unquoted_string(s@, pos as int) == Some((v@, e as int)) && pos < e
                <= s@.len(),
            None => unquoted_string(s@, pos as int) is None,
        },
{
    if pos < s.len() && exec_is_unquoted_start(s[pos]) {
        proof {
            lemma_unquoted_end_bounds(s@, pos + 1);
        }
        let mut i = pos + 1;
        while i < s.len() && exec_is_unquoted_char(s[i])
            invariant
                pos + 1 <= i <= s@.len(),
                unquoted_end(s@, pos + 1) == unquoted_end(s@, i as int),
            decreases s@.len() - i,
        {
            i = i + 1;
        }
        let mut v: Vec<char> = Vec::new();
        let mut j = pos;
        while j < i
            invariant
                pos <= j <= i <= s@.len(),
                v@ =~= s@.subrange(pos as int, j as int),
            decreases i - j,
        {
            v.push(s[j]);
            assert(v@ =~= s@.subrange(pos as int, j + 1));
            j = j + 1;
        }
        Some((v, i))
    } else {
        None
    }
}

/// The value of the hexadecimal digits in `s[from..to]`.
pub open spec fn hex_value_of(s: Seq<char>, from: int, to: int) -> int
    decreases to - from, when from <= to
{
    if from >= to {
        0
    } else {
        hex_value_of(s, from, to - 1) * 16 + hex_val(s[to - 1])->Some_0
    }
}

/// The end of a run of hexadecimal digits starting at `p`.
pub open spec fn hex_run_end(s: Seq<char>, p: int) -> int
    decreases s.len() - p, when 0 <= p <= s.len()
{
    if p < s.len() && hex_val(s[p]) is Some {
        hex_run_end(s, p + 1)
    } else {
        p
    }
}

/// An escape sequence after a backslash: one of `\' \" \\ \0 \n \r \t`, a
/// two-digit hexadecimal byte escape `\xHH`, or a Unicode escape `\u{H..H}`
/// with one to six hexadecimal digits naming a Unicode scalar value. `p` is
/// the position after the backslash. Returns the decoded character and the
/// position after the escape.
pub open spec fn escape(s: Seq<char>, p: int) -> Option<(char, int)> {
    if !(0 <= p < s.len()) {
        None
    } else if s[p] == '\'' {
        Some(('\'', p + 1))
    } else if s[p] == '"' {
        Some(('"', p + 1))
    } else if s[p] == '\\' {
        Some(('\\', p + 1))
    } else if s[p] == '0' {
        Some(('\0', p + 1))
    } else if s[p] == 'n' {
        Some(('\n', p + 1))
    } else if s[p] == 'r' {
        Some(('\r', p + 1))
    } else if s[p] == 't' {
        Some(('\t', p + 1))
    } else if s[p] == 'x' {
        if p + 2 < s.len() && hex_val(s[p + 1]) is Some && hex_val(s[p + 2]) is Some {
            Some(((hex_val(s[p + 1])->Some_0 * 16 + hex_val(s[p + 2])->Some_0) as char, p + 3))
        } else {
            None
        }
    } else if s[p] == 'u' {
        if p + 1 < s.len() && s[p + 1] == '{' {
            let e = hex_run_end(s, p + 2);
            let v = hex_value_of(s, p + 2, e);
            if 1 <= e - (p + 2) <= 6 && e < s.len() && s[e] == '}' && (v < 0xD800 || (0xE000 <= v
                && v <= 0x10FFFF)) {
                Some((v as char, e + 1))
            } else {
                None
            }
        } else {
            None
        }
    } else {
        None
    }
}

proof fn lemma_hex_run_end_bounds(s: Seq<char>, p: int)
    requires
        0 <= p <= s.len(),
    ensures
        p <= hex_run_end(s, p) <= s.len(),
    decreases s.len() - p,
{
    if p < s.len() && hex_val(s[p]) is Some {
        lemma_hex_run_end_bounds(s, p + 1);
    }
}


/// Sixteen to the `n`th power.
pub open spec fn pow16(n: int) -> int
    decreases n, when 0 <= n
{
    if n <= 0 {
        1
    } else {
        16 * pow16(n - 1)
    }
}

proof fn lemma_pow16_mono(a: int, b: int)
    requires
        0 <= a <= b,
    ensures
        1 <= pow16(a) <= pow16(b),
    decreases b,
{
    if a < b {
        lemma_pow16_mono(a, b - 1);
    } else {
        lemma_pow16_pos(a);
    }
}

proof fn lemma_pow16_pos(a: int)
    requires
        0 <= a,
    ensures
        1 <= pow16(a),
    decreases a,
{
    if a > 0 {
        lemma_pow16_pos(a - 1);
    }
}

/// The value of a run of hexadecimal digits is below sixteen to the length.
proof fn lemma_hex_value_bound(s: Seq<char>, from: int, to: int)
    requires
        from <= to,
        forall|k: int| from <= k < to ==> hex_val(s[k]) is Some,
    ensures
        0 <= hex_value_of(s, from, to) < pow16(to - from),
    decreases to - from,
{
    if from < to {
        lemma_hex_value_bound(s, from, to - 1);
        assert(hex_val(s[to - 1])->Some_0 < 16);
    }
}

/// Every position in a hexadecimal run holds a hexadecimal digit.
proof fn lemma_hex_run_digits(s: Seq<char>, p: int, k: int)
    requires
        0 <= p <= s.len(),
        p <= k < hex_run_end(s, p),
    ensures
        hex_val(s[k]) is Some,
    decreases s.len() - p,
{
    if p < s.len() && hex_val(s[p]) is Some {
        if k > p {
            lemma_hex_run_digits(s, p + 1, k);
        }
    }
}

/// Parses an escape sequence; `pos` is the position after the backslash.
fn p_escape(s: &Vec<char>, pos: usize) -> (r: Option<(char, usize)>)
    requires
        pos <= s@.len(),
        s@.len() < usize::MAX,
    ensures
        match r {
            Some((c, e)) => escape(s@, pos as int) == Some((c, e as int)) && pos < e <= s@.len(),
            None => escape(s@, pos as int) is None,
        },
{
    if pos >= s.len() {
        return None;
    }
    let c0 = s[pos];
    if c0 == '\'' {
        Some(('\'', pos + 1))
    } else if c0 == '"' {
        Some(('"', pos + 1))
    } else if c0 == '\\' {
        Some(('\\', pos + 1))
    } else if c0 == '0' {
        Some(('\0', pos + 1))
    } else if c0 == 'n' {
        Some(('\n', pos + 1))
    } else if c0 == 'r' {
        Some(('\r', pos + 1))
    } else if c0 == 't' {
        Some(('\t', pos + 1))
    } else if c0 == 'x' {
        if pos < s.len() - 1 && pos + 2 < s.len() {
            let h1 = exec_hex_val(s[pos + 1]);
            let h2 = exec_hex_val(s[pos + 2]);
            match (h1, h2) {
                (Some(v1), Some(v2)) => {
                    let v = v1 * 16 + v2;
                    match char_from_u32(v) {
                        Some(c) => Some((c, pos + 3)),
                        None => {
                            proof {
                                assert(false);
                            }
                            None
                        },
                    }
                },
                _ => None,
            }
        } else {
            None
        }
    } else if c0 == 'u' {
        if pos + 1 < s.len() && s[pos + 1] == '{' {
            proof {
                lemma_hex_run_end_bounds(s@, pos + 2);
            }
            let mut e = pos + 2;
            while e < s.len() && exec_hex_val(s[e]).is_some()
                invariant
                    pos + 2 <= e <= s@.len(),
                    hex_run_end(s@, pos + 2) == hex_run_end(s@, e as int),
                decreases s@.len() - e,
            {
                e = e + 1;
            }
            let count = e - (pos + 2);
            if 1 <= count && count <= 6 && e < s.len() && s[e] == '}' {
                proof {
                    assert forall|k: int| pos + 2 <= k < e implies hex_val(s@[k]) is Some by {
                        lemma_hex_run_digits(s@, pos + 2, k);
                    }
                    lemma_hex_value_bound(s@, pos + 2, e as int);
                }
                let mut v: u32 = 0;
                let mut j = pos + 2;
                while j < e
                    invariant
                        pos + 2 <= j <= e <= s@.len(),
                        e - (pos + 2) <= 6,
                        forall|k: int| pos + 2 <= k < e ==> hex_val(s@[k]) is Some,
                        v as int == hex_value_of(s@, pos + 2, j as int),
                        v < 0x1000000,
                    decreases e - j,
                {
                    proof {
                        lemma_hex_value_bound(s@, pos + 2, j as int);
                        lemma_hex_value_bound(s@, pos + 2, j + 1);
                        lemma_pow16_mono(j + 1 - (pos + 2), 6);
                        assert(pow16(6) == 0x1000000) by {
                            reveal_with_fuel(pow16, 7);
                        }
                    }
                    let d = match exec_hex_val(s[j]) {
                        Some(d) => d,
                        None => {
                            proof {
                                assert(false);
                            }
                            0
                        },
                    };
                    v = v * 16 + d;
                    j = j + 1;
                }
                if v < 0xD800 || (0xE000 <= v && v <= 0x10FFFF) {
                    match char_from_u32(v) {
                        Some(c) => Some((c, e + 1)),
                        None => {
                            proof {
                                assert(false);
                            }
                            None
                        },
                    }
                } else {
                    None
                }
            } else {
                None
            }
        } else {
            None
        }
    } else {
        None
    }
}

/// The body of a quoted string from `p` up to and including the closing
/// quote `q`: a run of ordinary characters (anything but a backslash or the
/// quote) and escape sequences. Returns the decoded text and the position
/// after the closing quote. An unterminated string or a bad escape is an
/// error.
pub open spec fn quoted_body(s: Seq<char>, p: int, q: char) -> Option<(Seq<char>, int)>
    decreases s.len() - p, when 0 <= p <= s.len()
{
    if p >= s.len() {
        None
    } else if s[p] == q {
        Some((Seq::empty(), p + 1))
    } else if s[p] == '\\' {
        match escape(s, p + 1) {
            Some((c, p2)) => if p2 <= p || p2 > s.len() {
                None
            } else {
                match quoted_body(s, p2, q) {
                    Some((t, p3)) => Some((seq![c] + t, p3)),
                    None => None,
                }
            },
            None => None,
        }
    } else {
        match quoted_body(s, p + 1, q) {
            Some((t, p3)) => Some((seq![s[p]] + t, p3)),
            None => None,
        }
    }
}

proof fn lemma_quoted_body_bounds(s: Seq<char>, p: int, q: char)
    requires
        0 <= p <= s.len(),
    ensures
        quoted_body(s, p, q) matches Some((t, e)) ==> p < e <= s.len(),
    decreases s.len() - p,
{
    if p < s.len() && s[p] != q {
        if s[p] == '\\' {
            if escape(s, p + 1) is Some {
                let p2 = escape(s, p + 1)->Some_0.1;
                if p < p2 <= s.len() {
                    lemma_quoted_body_bounds(s, p2, q);
                }
            }
        } else {
            lemma_quoted_body_bounds(s, p + 1, q);
        }
    }
}

/// Parses a quoted string body up to and including the closing quote.
fn p_quoted_body(s: &Vec<char>, pos: usize, q: char) -> (r: Option<(Vec<char>, usize)>)
    requires
        pos <= s@.len(),
        s@.len() < usize::MAX,
    ensures
        match r {
            Some((v, e)) => quoted_body(s@, pos as int, q) == Some((v@, e as int)) && pos < e
                <= s@.len(),
            None => quoted_body(s@, pos as int, q) is None,
        },
{
    let ghost p0 = pos as int;
    let mut acc: Vec<char> = Vec::new();
    let mut cur = pos;
    proof {
        lemma_quoted_body_bounds(s@, p0, q);
    }
    loop
        invariant
            p0 == pos as int,
            pos <= cur <= s@.len(),
            s@.len() < usize::MAX,
            quoted_body(s@, p0, q) == match quoted_body(s@, cur as int, q) {
                Some((t, e)) => Some((acc@ + t, e)),
                None => None::<(Seq<char>, int)>,
            },
        decreases s@.len() - cur,
    {
        if cur >= s.len() {
            return None;
        }
        let c = s[cur];
        if c == q {
            proof {
                assert(acc@ + Seq::<char>::empty() =~= acc@);
            }
            return Some((acc, cur + 1));
        }
        if c == '\\' {
            match p_escape(s, cur + 1) {
                Some((d, p2)) => {
                    proof {
                        lemma_quoted_body_bounds(s@, p2 as int, q);
                        if quoted_body(s@, p2 as int, q) is Some {
                            let t = quoted_body(s@, p2 as int, q)->Some_0.0;
                            assert((acc@.push(d)) + t =~= acc@ + (seq![d] + t));
                        }
                    }
                    acc.push(d);
                    cur = p2;
                },
                None => {
                    return None;
                },
            }
        } else {
            proof {
                lemma_quoted_body_bounds(s@, cur + 1, q);
                if quoted_body(s@, cur + 1, q) is Some {
                    let t = quoted_body(s@, cur + 1, q)->Some_0.0;
                    assert((acc@.push(c)) + t =~= acc@ + (seq![c] + t));
                }
            }
            acc.push(c);
            cur = cur + 1;
        }
    }
}

/// A string literal: unquoted, `'`-quoted, or `"`-quoted.
pub open spec fn string_lit(s: Seq<char>, p: int) -> Option<(Seq<char>, int)> {
    match unquoted_string(s, p) {
        Some(r) => Some(r),
        None => {
            if 0 <= p < s.len() && s[p] == '\'' {
                quoted_body(s, p + 1, '\'')
            } else if 0 <= p < s.len() && s[p] == '"' {
                quoted_body(s, p + 1, '"')
            } else {
                None
            }
        },
    }
}

proof fn lemma_string_lit_bounds(s: Seq<char>, p: int)
    requires
        0 <= p <= s.len(),
    ensures
        string_lit(s, p) matches Some((t, e)) ==> p < e <= s.len(),
{
    if unquoted_string(s, p) is Some {
        lemma_unquoted_end_bounds(s, p + 1);
    } else if 0 <= p < s.len() && (s[p] == '\'' || s[p] == '"') {
        lemma_quoted_body_bounds(s, p + 1, s[p]);
    }
}

/// Parses a string literal.
fn p_string(s: &Vec<char>, pos: usize) -> (r: Option<(Vec<char>, usize)>)
    requires
        pos <= s@.len(),
        s@.len() < usize::MAX,
    ensures
        match r {
            Some((v, e)) => string_lit(s@, pos as int) == Some((v@, e as int)) && pos < e
                <= s@.len(),
            None => string_lit(s@, pos as int) is None,
        },
{
    match p_unquoted_string(s, pos) {
        Some(r) => Some(r),
        None => {
            if pos < s.len() && s[pos] == '\'' {
                p_quoted_body(s, pos + 1, '\'')
            } else if pos < s.len() && s[pos] == '"' {
                p_quoted_body(s, pos + 1, '"')
            } else {
                None
            }
        },
    }
}

// ---------------------------------------------------------------------------
// Arguments and tags
// ---------------------------------------------------------------------------
/// One command argument: either `KEY=VALUE?` when an `=` directly follows the
/// first string literal (a missing value is the empty string), or a bare
/// value literal.
pub open spec fn argument(s: Seq<char>, p: int) -> Option<(ArgumentV, int)> {
    match string_lit(s, p) {
        Some((v1, p1)) => if p1 < s.len() && s[p1] == '=' {
            match string_lit(s, p1 + 1) {
                Some((v2, p2)) => Some((ArgumentV { key: Some(v1), value: v2 }, p2)),
                None => Some((ArgumentV { key: Some(v1), value: Seq::empty() }, p1 + 1)),
            }
        } else {
            Some((ArgumentV { key: None, value: v1 }, p1))
        },
        None => None,
    }
}


/// Parses one argument.
fn p_argument(s: &Vec<char>, pos: usize) -> (r: Option<(Argument, usize)>)
    requires
        pos <= s@.len(),
        s@.len() < usize::MAX,
    ensures
        match r {
            Some((a, e)) => argument(s@, pos as int) == Some((a@, e as int)) && pos < e
                <= s@.len(),
            None => argument(s@, pos as int) is None,
        },
{
    match p_string(s, pos) {
        Some((v1, p1)) => {
            if p1 < s.len() && s[p1] == '=' {
                match p_string(s, p1 + 1) {
                    Some((v2, p2)) => {
                        let a = Argument {
                            key: Some(chars_to_string(v1.as_slice())),
                            value: chars_to_string(v2.as_slice()),
                        };
                        Some((a, p2))
                    },
                    None => {
                        let a = Argument {
                            key: Some(chars_to_string(v1.as_slice())),
                            value: String::new(),
                        };
                        Some((a, p1 + 1))
                    },
                }
            } else {
                let a = Argument { key: None, value: chars_to_string(v1.as_slice()) };
                Some((a, p1))
            }
        },
        None => None,
    }
}

/// The command's argument list: arguments each preceded by at least one
/// space, as far as they reach. Returns the arguments and the position after
/// the last one (spaces after it are not consumed).
pub open spec fn args_list(s: Seq<char>, p: int) -> (Seq<ArgumentV>, int)
    decreases s.len() - p, when 0 <= p <= s.len()
{
    let q = skip_spaces(s, p);
    if q > p && q <= s.len() {
        match argument(s, q) {
            Some((a, p2)) => if p2 <= p || p2 > s.len() {
                (Seq::empty(), p)
            } else {
                let rest = args_list(s, p2);
                (seq![a] + rest.0, rest.1)
            },
            None => (Seq::empty(), p),
        }
    } else {
        (Seq::empty(), p)
    }
}

proof fn lemma_args_list_bounds(s: Seq<char>, p: int)
    requires
        0 <= p <= s.len(),
    ensures
        p <= args_list(s, p).1 <= s.len(),
    decreases s.len() - p,
{
    lemma_skip_spaces_bounds(s, p);
    let q = skip_spaces(s, p);
    if q > p && q <= s.len() {
        if argument(s, q) is Some {
            let p2 = argument(s, q)->Some_0.1;
            if p < p2 <= s.len() {
                lemma_args_list_bounds(s, p2);
            }
        }
    }
}

/// Parses the argument list.
fn p_args_list(s: &Vec<char>, pos: usize) -> (r: (Vec<Argument>, usize))
    requires
        pos <= s@.len(),
        s@.len() < usize::MAX,
    ensures
        args_list(s@, pos as int).0 == crate::command::args_view(r.0@),
        args_list(s@, pos as int).1 == r.1 as int,
        pos <= r.1 <= s@.len(),
{
    let ghost p0 = pos as int;
    let mut acc: Vec<Argument> = Vec::new();
    let mut cur = pos;
    proof {
        assert(crate::command::args_view(acc@) + args_list(s@, p0).0 =~= args_list(s@, p0).0);
    }
    loop
        invariant
            p0 == pos as int,
            pos <= cur <= s@.len(),
            s@.len() < usize::MAX,
            args_list(s@, p0).0 =~= crate::command::args_view(acc@) + args_list(
                s@,
                cur as int,
            ).0,
            args_list(s@, p0).1 == args_list(s@, cur as int).1,
        decreases s@.len() - cur,
    {
        let q = p_skip_spaces(s, cur);
        if q == cur {
            proof {
                assert(args_list(s@, cur as int).0 =~= Seq::<ArgumentV>::empty());
                assert(args_list(s@, p0).0 =~= crate::command::args_view(acc@));
            }
            return (acc, cur);
        }
        match p_argument(s, q) {
            Some((a, p2)) => {
                proof {
                    let rest = args_list(s@, p2 as int);
                    assert(args_list(s@, cur as int).0 =~= seq![a@] + rest.0);
                    assert(crate::command::args_view(acc@.push(a)) =~= crate::command::args_view(
                        acc@,
                    ).push(a@));
                    assert(crate::command::args_view(acc@).push(a@) + rest.0
                        =~= crate::command::args_view(acc@) + (seq![a@] + rest.0));
                }
                acc.push(a);
                cur = p2;
            },
            None => {
                proof {
                    assert(args_list(s@, cur as int).0 =~= Seq::<ArgumentV>::empty());
                    assert(args_list(s@, p0).0 =~= crate::command::args_view(acc@));
                }
                return (acc, cur);
            },
        }
    }
}

/// The tags after the first one in a bracketed tag list: each preceded by a
/// single comma or space separator.
pub open spec fn tag_rest(s: Seq<char>, p: int) -> (Seq<Seq<char>>, int)
    decreases s.len() - p, when 0 <= p <= s.len()
{
    if p < s.len() && (s[p] == ',' || s[p] == ' ') {
        match string_lit(s, p + 1) {
            Some((t, p2)) => if p2 <= p || p2 > s.len() {
                (Seq::empty(), p)
            } else {
                let rest = tag_rest(s, p2);
                (seq![t] + rest.0, rest.1)
            },
            None => (Seq::empty(), p),
        }
    } else {
        (Seq::empty(), p)
    }
}

proof fn lemma_tag_rest_bounds(s: Seq<char>, p: int)
    requires
        0 <= p <= s.len(),
    ensures
        p <= tag_rest(s, p).1 <= s.len(),
    decreases s.len() - p,
{
    if p < s.len() && (s[p] == ',' || s[p] == ' ') {
        lemma_string_lit_bounds(s, p + 1);
        if string_lit(s, p + 1) is Some {
            let p2 = string_lit(s, p + 1)->Some_0.1;
            if p < p2 <= s.len() {
                lemma_tag_rest_bounds(s, p2);
            }
        }
    }
}

/// An optional bracketed tag list, preceded by at least one space:
/// `[tag1, tag2 ...]` with tags separated by a comma or space. If the whole
/// pattern is not present, nothing is consumed.
pub open spec fn tags_opt(s: Seq<char>, p: int) -> (Seq<Seq<char>>, int) {
    let q = skip_spaces(s, p);
    if q > p && q < s.len() && s[q] == '[' {
        match string_lit(s, q + 1) {
            Some((t1, p1)) => if p1 < 0 || p1 > s.len() {
                (Seq::empty(), p)
            } else {
                let rest = tag_rest(s, p1);
                if rest.1 < s.len() && s[rest.1] == ']' {
                    (seq![t1] + rest.0, rest.1 + 1)
                } else {
                    (Seq::empty(), p)
                }
            },
            None => (Seq::empty(), p),
        }
    } else {
        (Seq::empty(), p)
    }
}

proof fn lemma_tags_opt_bounds(s: Seq<char>, p: int)
    requires
        0 <= p <= s.len(),
    ensures
        p <= tags_opt(s, p).1 <= s.len(),
{
    lemma_skip_spaces_bounds(s, p);
    let q = skip_spaces(s, p);
    if q > p && q < s.len() && s[q] == '[' {
        lemma_string_lit_bounds(s, q + 1);
        if string_lit(s, q + 1) is Some {
            let p1 = string_lit(s, q + 1)->Some_0.1;
            if 0 <= p1 <= s.len() {
                lemma_tag_rest_bounds(s, p1);
            }
        }
    }
}

/// Parses an optional bracketed tag list.
fn p_tags(s: &Vec<char>, pos: usize) -> (r: (Vec<String>, usize))
    requires
        pos <= s@.len(),
        s@.len() < usize::MAX,
    ensures
        tags_opt(s@, pos as int).0 == crate::command::strs_view(r.0@),
        tags_opt(s@, pos as int).1 == r.1 as int,
        pos <= r.1 <= s@.len(),
{
    let ghost p0 = pos as int;
    let mut acc: Vec<String> = Vec::new();
    let q = p_skip_spaces(s, pos);
    if !(q > pos && q < s.len() && s[q] == '[') {
        proof {
            assert(tags_opt(s@, p0).0 =~= crate::command::strs_view(acc@));
        }
        return (acc, pos);
    }
    let (t1, p1) = match p_string(s, q + 1) {
        Some(r) => r,
        None => {
            proof {
                assert(tags_opt(s@, p0).0 =~= crate::command::strs_view(Seq::<String>::empty()));
            }
            return (Vec::new(), pos);
        },
    };
    acc.push(chars_to_string(t1.as_slice()));
    let mut cur = p1;
    proof {
        assert(crate::command::strs_view(acc@) =~= seq![t1@]);
        assert(seq![t1@] + tag_rest(s@, p1 as int).0 =~= crate::command::strs_view(acc@)
            + tag_rest(s@, cur as int).0);
    }
    loop
        invariant
            p0 == pos as int,
            pos <= s@.len(),
            q == skip_spaces(s@, p0),
            q > pos && q < s@.len() && s@[q as int] == '[',
            string_lit(s@, q + 1) is Some,
            p1 as int == string_lit(s@, q + 1)->Some_0.1,
            p1 <= cur <= s@.len(),
            s@.len() < usize::MAX,
            seq![string_lit(s@, q + 1)->Some_0.0] + tag_rest(s@, p1 as int).0
                =~= crate::command::strs_view(acc@) + tag_rest(s@, cur as int).0,
            tag_rest(s@, p1 as int).1 == tag_rest(s@, cur as int).1,
        ensures
            tag_rest(s@, cur as int).0 =~= Seq::<Seq<char>>::empty(),
            tag_rest(s@, cur as int).1 == cur as int,
        decreases s@.len() - cur,
    {
        if cur < s.len() && (s[cur] == ',' || s[cur] == ' ') {
            match p_string(s, cur + 1) {
                Some((t, p2)) => {
                    let ts = chars_to_string(t.as_slice());
                    proof {
                        let rest = tag_rest(s@, p2 as int);
                        assert(tag_rest(s@, cur as int).0 =~= seq![t@] + rest.0);
                        assert(crate::command::strs_view(acc@.push(ts))
                            =~= crate::command::strs_view(acc@).push(t@));
                        assert(crate::command::strs_view(acc@).push(t@) + rest.0
                            =~= crate::command::strs_view(acc@) + (seq![t@] + rest.0));
                    }
                    acc.push(ts);
                    cur = p2;
                },
                None => {
                    break ;
                },
            }
        } else {
            break ;
        }
    }
    // tag_rest at cur yields nothing: the list ends here.
    proof {
        assert(tag_rest(s@, cur as int).0 =~= Seq::<Seq<char>>::empty());
        assert(seq![string_lit(s@, q + 1)->Some_0.0] + tag_rest(s@, p1 as int).0
            =~= crate::command::strs_view(acc@));
    }
    if cur < s.len() && s[cur] == ']' {
        (acc, cur + 1)
    } else {
        proof {
            assert(tags_opt(s@, p0).0 =~= crate::command::strs_view(Seq::<String>::empty()));
        }
        (Vec::new(), pos)
    }
}

// ---------------------------------------------------------------------------
// Commands
// ---------------------------------------------------------------------------
/// An optional command prefix: a string literal directly followed by `:` and
/// any spaces. If the pattern is not present, nothing is consumed.
pub open spec fn prefix_opt(s: Seq<char>, p: int) -> (Option<Seq<char>>, int) {
    match string_lit(s, p) {
        Some((px, p2)) => if 0 <= p2 < s.len() && s[p2] == ':' {
            (Some(px), skip_spaces(s, p2 + 1))
        } else {
            (None, p)
        },
        None => (None, p),
    }
}

proof fn lemma_prefix_opt_bounds(s: Seq<char>, p: int)
    requires
        0 <= p <= s.len(),
    ensures
        p <= prefix_opt(s, p).1 <= s.len(),
{
    lemma_string_lit_bounds(s, p);
    if string_lit(s, p) is Some {
        let p2 = string_lit(s, p)->Some_0.1;
        if 0 <= p2 < s.len() && s[p2] == ':' {
            lemma_skip_spaces_bounds(s, p2 + 1);
        }
    }
}

/// The closing parenthesis of a silenced command, after any spaces; for an
/// unsilenced command, nothing.
pub open spec fn close_paren(s: Seq<char>, p: int, silent: bool) -> Option<int> {
    if silent {
        let q = skip_spaces(s, p);
        if 0 <= q < s.len() && s[q] == ')' {
            Some(q + 1)
        } else {
            None
        }
    } else {
        Some(p)
    }
}

/// A single command line: optional silencing `(`, optional `PREFIX:`,
/// optional `!` failure marker, the command name (a non-empty string
/// literal), arguments, optional tags,
/// the closing `)` when silenced, then trailing spaces, an optional comment,
/// and the line ending. The command's line number is taken at its name.
pub open spec fn command(s: Seq<char>, p: int) -> Option<(CommandV, int)> {
    let silent = 0 <= p < s.len() && s[p] == '(';
    let p1 = if silent {
        skip_spaces(s, p + 1)
    } else {
        p
    };
    let pr = prefix_opt(s, p1);
    let fail = 0 <= pr.1 < s.len() && s[pr.1] == '!';
    let p4 = if fail {
        skip_spaces(s, pr.1 + 1)
    } else {
        pr.1
    };
    match string_lit(s, p4) {
        None => None,
        Some((name, p5)) => if name.len() == 0 {
            None
        } else {
            let ar = args_list(s, p5);
            let tr = tags_opt(s, ar.1);
            match close_paren(s, tr.1, silent) {
                None => None,
                Some(pc) => {
                    let p8 = skip_spaces(s, pc);
                    let p9 = match comment_end(s, p8) {
                        Some(e) => e,
                        None => p8,
                    };
                    match line_ending(s, p9) {
                        None => None,
                        Some(p10) => Some(
                            (
                                CommandV {
                                    name: name,
                                    args: ar.0,
                                    prefix: pr.0,
                                    silent: silent,
                                    fail: fail,
                                    tags: tr.0,
                                    line_number: line_of(s, p4) as nat,
                                },
                                p10,
                            ),
                        ),
                    }
                },
            }
        },
    }
}


/// Parses a single command line.
pub(crate) fn p_command(s: &Vec<char>, pos: usize) -> (r: Result<(Command, usize), ParseError>)
    requires
        pos <= s@.len(),
        s@.len() < usize::MAX,
    ensures
        r matches Ok((c, e)) ==> command(s@, pos as int) == Some((c@, e as int)) && pos < e
            <= s@.len(),
        r is Err ==> command(s@, pos as int) is None,
{
    let silent = pos < s.len() && s[pos] == '(';
    let p1 = if silent {
        p_skip_spaces(s, pos + 1)
    } else {
        pos
    };
    let (prefix, p3): (Option<String>, usize) = match p_string(s, p1) {
        Some((px, p2)) => {
            if p2 < s.len() && s[p2] == ':' {
                (Some(chars_to_string(px.as_slice())), p_skip_spaces(s, p2 + 1))
            } else {
                (None, p1)
            }
        },
        None => (None, p1),
    };
    proof {
        assert(prefix_opt(s@, p1 as int).1 == p3 as int);
        assert(prefix_opt(s@, p1 as int).0 == match prefix {
            Some(px) => Some(px@),
            None => None::<Seq<char>>,
        });
    }
    let fail = p3 < s.len() && s[p3] == '!';
    let p4 = if fail {
        p_skip_spaces(s, p3 + 1)
    } else {
        p3
    };
    let (name_chars, p5) = match p_string(s, p4) {
        Some(r) => r,
        None => {
            return Err(parse_error_at(s, p4));
        },
    };
    if name_chars.len() == 0 {
        return Err(parse_error_at(s, p4));
    }
    let (args, p6) = p_args_list(s, p5);
    let (tags, p7) = p_tags(s, p6);
    let pc = if silent {
        let qc = p_skip_spaces(s, p7);
        if qc < s.len() && s[qc] == ')' {
            qc + 1
        } else {
            return Err(parse_error_at(s, qc));
        }
    } else {
        p7
    };
    let p8 = p_skip_spaces(s, pc);
    let p9 = match p_comment(s, p8) {
        Some(e) => e,
        None => p8,
    };
    let p10 = match p_line_ending(s, p9) {
        Some(e) => e,
        None => {
            return Err(parse_error_at(s, p9));
        },
    };
    let (line, _) = line_col_at(s, p4);
    let c = Command {
        name: chars_to_string(name_chars.as_slice()),
        args,
        prefix,
        silent,
        fail,
        tags,
        line_number: line,
    };
    proof {
        let cv = command(s@, pos as int)->Some_0.0;
        assert(cv.name == c@.name);
        assert(cv.args == c@.args);
        assert(cv.prefix == c@.prefix);
        assert(cv.tags == c@.tags);
        assert(cv.line_number == c@.line_number);
        assert(command(s@, pos as int) == Some((c@, p10 as int)));
    }
    Ok((c, p10))
}

// ---------------------------------------------------------------------------
// Command sections, output regions, blocks
// ---------------------------------------------------------------------------
/// The command section of a block: blank and comment lines are skipped,
/// commands are parsed until the separator (once at least one command was
/// seen) or the end of the text. A separator with no command before it is
/// handed to the command parser, which fails there.
pub open spec fn commands(s: Seq<char>, p: int, seen: bool) -> Option<(Seq<CommandV>, int)>
    decreases s.len() - p, when 0 <= p <= s.len()
{
    match empty_or_comment_line(s, p) {
        Some(p1) => if p1 <= p || p1 > s.len() {
            None
        } else {
            commands(s, p1, seen)
        },
        None => {
            if p >= s.len() {
                Some((Seq::empty(), p))
            } else if seen && separator(s, p) is Some {
                Some((Seq::empty(), p))
            } else {
                match command(s, p) {
                    Some((c, p2)) => if p2 <= p || p2 > s.len() {
                        None
                    } else {
                        match commands(s, p2, true) {
                            Some((cs, e)) => Some((seq![c] + cs, e)),
                            None => None,
                        }
                    },
                    None => None,
                }
            }
        },
    }
}

proof fn lemma_commands_bounds(s: Seq<char>, p: int, seen: bool)
    requires
        0 <= p <= s.len(),
    ensures
        commands(s, p, seen) matches Some((cs, e)) ==> p <= e <= s.len(),
    decreases s.len() - p,
{
    match empty_or_comment_line(s, p) {
        Some(p1) => {
            if p < p1 <= s.len() {
                lemma_commands_bounds(s, p1, seen);
            }
        },
        None => {
            if p < s.len() && !(seen && separator(s, p) is Some) {
                if command(s, p) is Some {
                    let p2 = command(s, p)->Some_0.1;
                    if p < p2 <= s.len() {
                        lemma_commands_bounds(s, p2, true);
                    }
                }
            }
        },
    }
}

/// A command section that starts before the end of the text consumes at
/// least one character when it starts with no command seen.
proof fn lemma_commands_progress(s: Seq<char>, p: int)
    requires
        0 <= p < s.len(),
    ensures
        commands(s, p, false) matches Some((cs, e)) ==> p < e <= s.len(),
{
    match empty_or_comment_line(s, p) {
        Some(p1) => {
            if p < p1 <= s.len() {
                lemma_commands_bounds(s, p1, false);
            }
        },
        None => {
            if command(s, p) is Some {
                let p2 = command(s, p)->Some_0.1;
                if p < p2 <= s.len() {
                    lemma_commands_bounds(s, p2, true);
                }
            }
        },
    }
}

/// Parses the command section of a block.
fn p_commands(s: &Vec<char>, pos: usize) -> (r: Result<(Vec<Command>, usize), ParseError>)
    requires
        pos <= s@.len(),
        s@.len() < usize::MAX,
    ensures
        r matches Ok((cs, e)) ==> commands(s@, pos as int, false) == Some(
            (crate::command::commands_view(cs@), e as int),
        ) && pos <= e <= s@.len(),
        r is Err ==> commands(s@, pos as int, false) is None,
{
    let ghost p0 = pos as int;
    let mut acc: Vec<Command> = Vec::new();
    let mut cur = pos;
    loop
        invariant
            p0 == pos as int,
            pos <= cur <= s@.len(),
            s@.len() < usize::MAX,
            commands(s@, p0, false) == match commands(s@, cur as int, acc@.len() > 0) {
                Some((t, e)) => Some((crate::command::commands_view(acc@) + t, e)),
                None => None::<(Seq<CommandV>, int)>,
            },
        decreases s@.len() - cur,
    {
        match p_empty_or_comment_line(s, cur) {
            Some(p1) => {
                cur = p1;
                continue ;
            },
            None => {},
        }
        if cur == s.len() {
            proof {
                assert(crate::command::commands_view(acc@) + Seq::<CommandV>::empty()
                    =~= crate::command::commands_view(acc@));
            }
            return Ok((acc, cur));
        }
        if acc.len() > 0 {
            match p_separator(s, cur) {
                Some(_) => {
                    proof {
                        assert(crate::command::commands_view(acc@) + Seq::<CommandV>::empty()
                            =~= crate::command::commands_view(acc@));
                    }
                    return Ok((acc, cur));
                },
                None => {},
            }
        }
        match p_command(s, cur) {
            Ok((c, p2)) => {
                proof {
                    if commands(s@, p2 as int, true) is Some {
                        let t = commands(s@, p2 as int, true)->Some_0.0;
                        assert(crate::command::commands_view(acc@.push(c))
                            =~= crate::command::commands_view(acc@).push(c@));
                        assert(crate::command::commands_view(acc@).push(c@) + t
                            =~= crate::command::commands_view(acc@) + (seq![c@] + t));
                    }
                }
                acc.push(c);
                cur = p2;
            },
            Err(e) => {
                return Err(e);
            },
        }
    }
}

/// The position just past an output region: the region runs from right after
/// the separator to the first blank line (both line endings consumed) or the
/// end of the text. An output region that starts with a line ending or at the
/// end of the text is empty.
pub open spec fn output_end(s: Seq<char>, p: int) -> int {
    match line_ending(s, p) {
        Some(e) => e,
        None => if p >= s.len() {
            p
        } else {
            output_scan(s, p)
        },
    }
}

/// Scans for a blank line: a line ending directly followed by another line
/// ending or the end of the text, consuming both.
pub open spec fn output_scan(s: Seq<char>, p: int) -> int
    decreases s.len() - p, when 0 <= p <= s.len()
{
    match line_ending(s, p) {
        Some(p1) => match line_ending(s, p1) {
            Some(p2) => p2,
            None => if p1 >= s.len() {
                p1
            } else {
                output_scan(s, p + 1)
            },
        },
        None => if p >= s.len() {
            p
        } else {
            output_scan(s, p + 1)
        },
    }
}

proof fn lemma_output_scan_bounds(s: Seq<char>, p: int)
    requires
        0 <= p <= s.len(),
    ensures
        p <= output_scan(s, p) <= s.len(),
    decreases s.len() - p,
{
    match line_ending(s, p) {
        Some(p1) => {
            if line_ending(s, p1) is None && p1 < s.len() {
                lemma_output_scan_bounds(s, p + 1);
            }
        },
        None => {
            if p < s.len() {
                lemma_output_scan_bounds(s, p + 1);
            }
        },
    }
}

/// Skips an output region.
fn p_output(s: &Vec<char>, pos: usize) -> (r: usize)
    requires
        pos <= s@.len(),
        s@.len() < usize::MAX,
    ensures
        r as int == output_end(s@, pos as int),
        pos <= r <= s@.len(),
{
    match p_line_ending(s, pos) {
        Some(e) => {
            return e;
        },
        None => {},
    }
    if pos == s.len() {
        return pos;
    }
    proof {
        lemma_output_scan_bounds(s@, pos as int);
    }
    let mut cur = pos;
    loop
        invariant
            pos <= cur <= s@.len(),
            s@.len() < usize::MAX,
            line_ending(s@, pos as int) is None,
            pos < s@.len(),
            output_scan(s@, pos as int) == output_scan(s@, cur as int),
        decreases s@.len() - cur,
    {
        match p_line_ending(s, cur) {
            Some(p1) => {
                match p_line_ending(s, p1) {
                    Some(p2) => {
                        return p2;
                    },
                    None => {
                        if p1 == s.len() {
                            return p1;
                        }
                        cur = cur + 1;
                    },
                }
            },
            None => {
                if cur == s.len() {
                    return cur;
                }
                cur = cur + 1;
            },
        }
    }
}

/// One block: a command section, then (unless the text ended with no command
/// in this block) the separator and the output region. The literal is the
/// exact text of the command section; the line number is where the block
/// starts.
pub open spec fn block(s: Seq<char>, p: int) -> Option<(BlockV, int)> {
    match commands(s, p, false) {
        Some((cs, p1)) => {
            let b = BlockV {
                commands: cs,
                literal: s.subrange(p, p1),
                line_number: line_of(s, p) as nat,
            };
            if p1 >= s.len() && cs.len() == 0 {
                Some((b, p1))
            } else {
                match separator(s, p1) {
                    Some(p2) => Some((b, output_end(s, p2))),
                    None => None,
                }
            }
        },
        None => None,
    }
}

proof fn lemma_block_bounds(s: Seq<char>, p: int)
    requires
        0 <= p <= s.len(),
    ensures
        block(s, p) matches Some((b, e)) ==> p <= e <= s.len() && (p < s.len() ==> p < e),
{
    lemma_commands_bounds(s, p, false);
    if p < s.len() {
        lemma_commands_progress(s, p);
    }
    if commands(s, p, false) is Some {
        let p1 = commands(s, p, false)->Some_0.1;
        if 0 <= p1 <= s.len() && separator(s, p1) is Some {
            let p2 = separator(s, p1)->Some_0;
            if 0 <= p2 <= s.len() {
                lemma_output_scan_bounds(s, p2);
            }
        }
    }
}

/// Parses one block.
fn p_block(s: &Vec<char>, pos: usize) -> (r: Result<(Block, usize), ParseError>)
    requires
        pos <= s@.len(),
        s@.len() < usize::MAX,
    ensures
        r matches Ok((b, e)) ==> block(s@, pos as int) == Some((b@, e as int)) && pos <= e
            <= s@.len() && (pos < s@.len() ==> pos < e),
        r is Err ==> block(s@, pos as int) is None,
{
    proof {
        lemma_block_bounds(s@, pos as int);
    }
    let (commands_vec, p1) = match p_commands(s, pos) {
        Ok(r) => r,
        Err(e) => {
            return Err(e);
        },
    };
    let mut literal_chars: Vec<char> = Vec::new();
    let mut i = pos;
    while i < p1
        invariant
            pos <= i <= p1 <= s@.len(),
            literal_chars@ =~= s@.subrange(pos as int, i as int),
        decreases p1 - i,
    {
        literal_chars.push(s[i]);
        assert(literal_chars@ =~= s@.subrange(pos as int, i + 1));
        i = i + 1;
    }
    assert(literal_chars@ =~= s@.subrange(pos as int, p1 as int));
    let (line, _) = line_col_at(s, pos);
    let b = Block {
        commands: commands_vec,
        literal: chars_to_string(literal_chars.as_slice()),
        line_number: line,
    };
    if p1 == s.len() && b.commands.len() == 0 {
        proof {
            assert(block(s@, pos as int) == Some((b@, p1 as int)));
        }
        return Ok((b, p1));
    }
    let p2 = match p_separator(s, p1) {
        Some(e) => e,
        None => {
            return Err(parse_error_at(s, p1));
        },
    };
    let p3 = p_output(s, p2);
    proof {
        assert(block(s@, pos as int) == Some((b@, p3 as int)));
    }
    Ok((b, p3))
}

/// A whole script: blocks until the end of the text.
pub open spec fn blocks(s: Seq<char>, p: int) -> Option<Seq<BlockV>>
    decreases s.len() - p, when 0 <= p <= s.len()
{
    if p >= s.len() {
        Some(Seq::empty())
    } else {
        match block(s, p) {
            Some((b, p1)) => if p1 <= p || p1 > s.len() {
                None
            } else {
                match blocks(s, p1) {
                    Some(bs) => Some(seq![b] + bs),
                    None => None,
                }
            },
            None => None,
        }
    }
}

/// The blocks of a script, if it is well-formed.
pub open spec fn spec_parse(s: Seq<char>) -> Option<Seq<BlockV>> {
    blocks(s, 0)
}

/// The first command of a script text, if its first line is a well-formed
/// command line.
pub open spec fn spec_parse_command(s: Seq<char>) -> Option<CommandV> {
    match command(s, 0) {
        Some((c, e)) => Some(c),
        None => None,
    }
}

/// Parses the blocks of a script.
fn p_blocks(s: &Vec<char>, pos: usize) -> (r: Result<Vec<Block>, ParseError>)
    requires
        pos <= s@.len(),
        s@.len() < usize::MAX,
    ensures
        r matches Ok(bs) ==> blocks(s@, pos as int) == Some(crate::command::blocks_view(bs@)),
        r is Err ==> blocks(s@, pos as int) is None,
{
    let ghost p0 = pos as int;
    let mut acc: Vec<Block> = Vec::new();
    let mut cur = pos;
    loop
        invariant
            p0 == pos as int,
            pos <= cur <= s@.len(),
            s@.len() < usize::MAX,
            blocks(s@, p0) == match blocks(s@, cur as int) {
                Some(t) => Some(crate::command::blocks_view(acc@) + t),
                None => None::<Seq<BlockV>>,
            },
        decreases s@.len() - cur,
    {
        if cur == s.len() {
            proof {
                assert(crate::command::blocks_view(acc@) + Seq::<BlockV>::empty()
                    =~= crate::command::blocks_view(acc@));
            }
            return Ok(acc);
        }
        match p_block(s, cur) {
            Ok((b, p1)) => {
                proof {
                    if blocks(s@, p1 as int) is Some {
                        let t = blocks(s@, p1 as int)->Some_0;
                        assert(crate::command::blocks_view(acc@.push(b))
                            =~= crate::command::blocks_view(acc@).push(b@));
                        assert(crate::command::blocks_view(acc@).push(b@) + t
                            =~= crate::command::blocks_view(acc@) + (seq![b@] + t));
                    }
                }
                acc.push(b);
                cur = p1;
            },
            Err(e) => {
                return Err(e);
            },
        }
    }
}

/// Parses the given goldenscript text into a list of command blocks.
pub fn parse(input: &str) -> (r: Result<Vec<Block>, ParseError>)
    requires
        input@.len() < usize::MAX,
    ensures
        r matches Ok(bs) ==> spec_parse(input@) == Some(crate::command::blocks_view(bs@)),
        r is Err ==> spec_parse(input@) is None,
{
    let cs = crate::text::str_chars(input);
    p_blocks(&cs, 0)
}

/// Parses a single command line, mainly for tests.
pub fn parse_command(input: &str) -> (r: Result<Command, ParseError>)
    requires
        input@.len() < usize::MAX,
    ensures
        r matches Ok(c) ==> spec_parse_command(input@) == Some(c@),
        r is Err ==> spec_parse_command(input@) is None,
{
    let cs = crate::text::str_chars(input);
    match p_command(&cs, 0) {
        Ok((c, _)) => Ok(c),
        Err(e) => Err(e),
    }
}

} // verus!
