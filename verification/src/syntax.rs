//! Lexical building blocks shared by the formula parsers: whitespace, numbers and lines.

use vstd::prelude::*;

verus! {

/// Whether a character is whitespace between tokens.
pub open spec fn is_ws(c: char) -> bool {
    c == ' ' || c == '\t' || c == '\n' || c == '\r'
}

/// Whether a character is whitespace within a line.
pub open spec fn is_blank(c: char) -> bool {
    c == ' ' || c == '\t' || c == '\r'
}

/// Whether a character is a decimal digit.
pub open spec fn is_digit(c: char) -> bool {
    '0' <= c && c <= '9'
}

/// The value of a decimal digit.
pub open spec fn digit_value(c: char) -> int {
    (c as int) - ('0' as int)
}

/// The position of the first non-whitespace character at or after `i`.
pub open spec fn skip_ws(s: Seq<char>, i: int) -> int
    decreases s.len() - i,
{
    if 0 <= i < s.len() && is_ws(s[i]) {
        skip_ws(s, i + 1)
    } else {
        i
    }
}

/// The position of the first non-blank character at or after `i`.
pub open spec fn skip_blank(s: Seq<char>, i: int) -> int
    decreases s.len() - i,
{
    if 0 <= i < s.len() && is_blank(s[i]) {
        skip_blank(s, i + 1)
    } else {
        i
    }
}

/// The end of the run of digits starting at `i`.
pub open spec fn digits_end(s: Seq<char>, i: int) -> int
    decreases s.len() - i,
{
    if 0 <= i < s.len() && is_digit(s[i]) {
        digits_end(s, i + 1)
    } else {
        i
    }
}

/// The value of the decimal digits `s[i..j]`.
pub open spec fn digits_value(s: Seq<char>, i: int, j: int) -> int
    decreases j - i,
{
    if j <= i {
        0
    } else {
        digits_value(s, i, j - 1) * 10 + digit_value(s[j - 1])
    }
}

/// The end of the line starting at `i`: the position of the next newline, or the end of the text.
pub open spec fn line_end(s: Seq<char>, i: int) -> int
    decreases s.len() - i,
{
    if 0 <= i < s.len() && s[i] != '\n' {
        line_end(s, i + 1)
    } else {
        i
    }
}

/// Skipping whitespace moves forward, but not past the end.
pub proof fn lemma_skip_ws(s: Seq<char>, i: int)
    requires
        0 <= i <= s.len(),
    ensures
        i <= skip_ws(s, i) <= s.len(),
        skip_ws(s, i) < s.len() ==> !is_ws(s[skip_ws(s, i)]),
        forall|k: int| i <= k < skip_ws(s, i) ==> is_ws(#[trigger] s[k]),
    decreases s.len() - i,
{
    if i < s.len() && is_ws(s[i]) {
        lemma_skip_ws(s, i + 1);
    }
}

/// Skipping blanks moves forward, but not past the end.
pub proof fn lemma_skip_blank(s: Seq<char>, i: int)
    requires
        0 <= i <= s.len(),
    ensures
        i <= skip_blank(s, i) <= s.len(),
        skip_blank(s, i) < s.len() ==> !is_blank(s[skip_blank(s, i)]),
        forall|k: int| i <= k < skip_blank(s, i) ==> is_blank(#[trigger] s[k]),
    decreases s.len() - i,
{
    if i < s.len() && is_blank(s[i]) {
        lemma_skip_blank(s, i + 1);
    }
}

/// A run of digits moves forward, but not past the end.
pub proof fn lemma_digits_end(s: Seq<char>, i: int)
    requires
        0 <= i <= s.len(),
    ensures
        i <= digits_end(s, i) <= s.len(),
        digits_end(s, i) < s.len() ==> !is_digit(s[digits_end(s, i)]),
        forall|k: int| i <= k < digits_end(s, i) ==> is_digit(#[trigger] s[k]),
    decreases s.len() - i,
{
    if i < s.len() && is_digit(s[i]) {
        lemma_digits_end(s, i + 1);
    }
}

/// The end of a line is not before its start, nor past the end.
pub proof fn lemma_line_end(s: Seq<char>, i: int)
    requires
        0 <= i <= s.len(),
    ensures
        i <= line_end(s, i) <= s.len(),
        line_end(s, i) < s.len() ==> s[line_end(s, i)] == '\n',
        forall|k: int| i <= k < line_end(s, i) ==> #[trigger] s[k] != '\n',
    decreases s.len() - i,
{
    if i < s.len() && s[i] != '\n' {
        lemma_line_end(s, i + 1);
    }
}

/// The value of digits does not decrease when more digits follow.
pub proof fn lemma_digits_value_grows(s: Seq<char>, i: int, j: int)
    requires
        i <= j < s.len(),
        is_digit(s[j]),
        forall|k: int| i <= k < j ==> is_digit(#[trigger] s[k]),
    ensures
        digits_value(s, i, j + 1) >= digits_value(s, i, j),
        digits_value(s, i, j) >= 0,
    decreases j - i,
{
    if j > i {
        lemma_digits_value_grows(s, i, j - 1);
    }
}

/// Returns the position of the first non-whitespace character at or after `i`.
pub fn skip_ws_exec(s: &Vec<char>, i: usize) -> (r: usize)
    requires
        i <= s@.len(),
    ensures
        r == skip_ws(s@, i as int),
{
    let mut j = i;
    while j < s.len() && (s[j] == ' ' || s[j] == '\t' || s[j] == '\n' || s[j] == '\r')
        invariant
            i <= j <= s@.len(),
            skip_ws(s@, j as int) == skip_ws(s@, i as int),
        decreases s.len() - j,
    {
        j = j + 1;
    }
    j
}

/// Returns the position of the first non-blank character at or after `i`.
pub fn skip_blank_exec(s: &Vec<char>, i: usize) -> (r: usize)
    requires
        i <= s@.len(),
    ensures
        r == skip_blank(s@, i as int),
{
    let mut j = i;
    while j < s.len() && (s[j] == ' ' || s[j] == '\t' || s[j] == '\r')
        invariant
            i <= j <= s@.len(),
            skip_blank(s@, j as int) == skip_blank(s@, i as int),
        decreases s.len() - j,
    {
        j = j + 1;
    }
    j
}

/// Returns the end of the line starting at `i` (see `line_end`).
pub fn line_end_exec(s: &Vec<char>, i: usize) -> (r: usize)
    requires
        i <= s@.len(),
    ensures
        r == line_end(s@, i as int),
{
    let mut j = i;
    while j < s.len() && s[j] != '\n'
        invariant
            i <= j <= s@.len(),
            line_end(s@, j as int) == line_end(s@, i as int),
        decreases s.len() - j,
    {
        j = j + 1;
    }
    j
}

/// Reads the run of digits starting at `i`.
///
/// Returns its end and, if it is at most `i32::MAX`, its value.
pub fn read_number(s: &Vec<char>, i: usize) -> (r: (usize, Option<i32>))
    requires
        i <= s@.len(),
    ensures
        r.0 == digits_end(s@, i as int),
        digits_value(s@, i as int, r.0 as int) >= 0,
        digits_value(s@, i as int, r.0 as int) <= i32::MAX ==> r.1 == Some(digits_value(s@, i as int, r.0 as int) as i32),
        digits_value(s@, i as int, r.0 as int) > i32::MAX ==> r.1 is None,
{
    let mut j = i;
    let mut value: i64 = 0;
    let mut overflow = false;
    proof { lemma_digits_end(s@, i as int); }
    while j < s.len() && '0' <= s[j] && s[j] <= '9'
        invariant
            i <= j <= digits_end(s@, i as int),
            digits_end(s@, i as int) <= s@.len(),
            forall|k: int| i <= k < digits_end(s@, i as int) ==> is_digit(#[trigger] s@[k]),
            digits_end(s@, j as int) == digits_end(s@, i as int),
            !overflow ==> value == digits_value(s@, i as int, j as int) && 0 <= value <= i32::MAX,
            overflow ==> digits_value(s@, i as int, j as int) > i32::MAX,
        decreases s.len() - j,
    {
        proof {
            lemma_digits_value_grows(s@, i as int, j as int);
            lemma_digits_end(s@, j + 1);
        }
        let d = (s[j] as u32 - '0' as u32) as i64;
        if !overflow {
            let next = value * 10 + d;
            if next > 2147483647 {
                overflow = true;
            } else {
                value = next;
            }
        }
        j = j + 1;
    }
    if overflow {
        (j, None)
    } else {
        (j, Some(value as i32))
    }
}

} // verus!
