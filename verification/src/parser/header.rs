//! The comment header shared by .sat and .cnf files, which may name variables.
//!
//! A comment is a line that starts with `c`. A comment of the form `c <k> <name>` names the
//! `k`-th variable; other comments are ignored. The header ends at the first other line.

use vstd::prelude::*;
use crate::syntax::{digits_end, digits_value, is_blank, is_digit, lemma_digits_end, lemma_line_end, lemma_skip_blank,
    lemma_skip_ws, line_end, line_end_exec, read_number, skip_blank, skip_blank_exec, skip_ws, skip_ws_exec};

verus! {

/// The end of `s[lo..hi]` without trailing blanks.
pub open spec fn trim_end(s: Seq<char>, lo: int, hi: int) -> int
    decreases hi - lo,
{
    if lo < hi && is_blank(s[hi - 1]) {
        trim_end(s, lo, hi - 1)
    } else {
        hi
    }
}

/// What a comment line `s[i..le]` (with `s[i] == 'c'`) says.
///
/// `Some(Some((k, name)))` for a comment naming variable `k`, `Some(None)` for any other comment,
/// and `None` for a variable number too large for a variable identifier.
pub open spec fn comment_var(s: Seq<char>, i: int, le: int) -> Option<Option<(int, Seq<char>)>> {
    let b = skip_blank(s, i + 1);
    if !(b < le && is_digit(s[b])) {
        Some(None)
    } else {
        let e = digits_end(s, b);
        if !(e < le && is_blank(s[e])) {
            Some(None)
        } else {
            let start = skip_blank(s, e);
            let end = trim_end(s, start, le);
            if start >= end {
                Some(None)
            } else if digits_value(s, b, e) > i32::MAX {
                None
            } else {
                Some(Some((digits_value(s, b, e), s.subrange(start, end))))
            }
        }
    }
}

/// Parses the comment lines starting at `i` (after optional whitespace).
///
/// Returns the variable names they give, in order, and the position of the first other line;
/// `None` if a variable number is too large.
pub open spec fn header(s: Seq<char>, i: int) -> Option<(Seq<(int, Seq<char>)>, int)>
    decreases s.len() - i,
{
    if !(0 <= i <= s.len()) {
        None
    } else {
        let j = skip_ws(s, i);
        proof {
            lemma_skip_ws(s, i);
        }
        if j < s.len() && s[j] == 'c' {
            let le = line_end(s, j + 1);
            proof {
                lemma_line_end(s, j + 1);
            }
            match comment_var(s, j, le) {
                None => None,
                Some(entry) => match header(s, le) {
                    None => None,
                    Some((names, p)) => Some((
                        match entry {
                            Some(x) => seq![x] + names,
                            None => names,
                        },
                        p,
                    )),
                },
            }
        } else {
            Some((Seq::empty(), j))
        }
    }
}

/// The name given to variable `k` by the last comment that names it.
pub open spec fn name_of(names: Seq<(int, Seq<char>)>, k: int) -> Option<Seq<char>>
    decreases names.len(),
{
    if names.len() == 0 {
        None
    } else if names.last().0 == k {
        Some(names.last().1)
    } else {
        name_of(names.drop_last(), k)
    }
}

/// The header ends after its start and within the text.
pub proof fn lemma_header_bounds(s: Seq<char>, i: int)
    requires
        header(s, i) is Some,
    ensures
        i <= header(s, i).unwrap().1 <= s.len(),
        header(s, i).unwrap().1 == s.len() || s[header(s, i).unwrap().1] != 'c',
        header(s, i).unwrap().1 == skip_ws(s, header(s, i).unwrap().1),
    decreases s.len() - i,
{
    lemma_skip_ws(s, i);
    let j = skip_ws(s, i);
    if j < s.len() && s[j] == 'c' {
        lemma_line_end(s, j + 1);
        lemma_header_bounds(s, line_end(s, j + 1));
    } else {
        if j < s.len() {
            assert(!crate::syntax::is_ws(s[j]));
        }
    }
}

/// A comment line whose text after `c` does not begin with a number is accepted and names no
/// variable: the header from before the line is the header from after it.
pub proof fn law_plain_comment_ignored(s: Seq<char>, i: int)
    requires
        0 <= i <= s.len(),
        skip_ws(s, i) < s.len(),
        s[skip_ws(s, i)] == 'c',
        ({
            let b = skip_blank(s, skip_ws(s, i) + 1);
            !(b < line_end(s, skip_ws(s, i) + 1) && is_digit(s[b]))
        }),
    ensures
        header(s, i) == header(s, line_end(s, skip_ws(s, i) + 1)),
{
    lemma_skip_ws(s, i);
    let j = skip_ws(s, i);
    lemma_line_end(s, j + 1);
    assert(comment_var(s, j, line_end(s, j + 1)) == Some(None::<(int, Seq<char>)>));
    match header(s, line_end(s, j + 1)) {
        None => {},
        Some((names, p)) => {},
    }
}

/// Returns the end of `s[lo..hi]` without trailing blanks (see `trim_end`).
fn trim_end_exec(s: &Vec<char>, lo: usize, hi: usize) -> (r: usize)
    requires
        lo <= hi <= s@.len(),
    ensures
        r == trim_end(s@, lo as int, hi as int),
        lo <= r <= hi,
{
    let mut h = hi;
    while lo < h && (s[h - 1] == ' ' || s[h - 1] == '\t' || s[h - 1] == '\r')
        invariant
            lo <= h <= hi,
            hi <= s@.len(),
            trim_end(s@, lo as int, h as int) == trim_end(s@, lo as int, hi as int),
        decreases h,
    {
        h = h - 1;
    }
    h
}

/// Returns what a comment line says (see `comment_var`).
fn comment_var_exec(s: &Vec<char>, i: usize, le: usize) -> (r: Option<Option<(i32, Vec<char>)>>)
    requires
        i < le <= s@.len(),
        le == s@.len() || s@[le as int] == '\n',
    ensures
        match comment_var(s@, i as int, le as int) {
            None => r is None,
            Some(None) => r == Some(None::<(i32, Vec<char>)>),
            Some(Some((k, name))) => r matches Some(Some((k2, n2))) && k2 == k && n2@ == name,
        },
{
    let b = skip_blank_exec(s, i + 1);
    proof {
        lemma_skip_blank(s@, i + 1);
    }
    if !(b < le && '0' <= s[b] && s[b] <= '9') {
        return Some(None);
    }
    let (e, value) = read_number(s, b);
    proof {
        lemma_digits_end(s@, b as int);
    }
    if !(e < le && (s[e] == ' ' || s[e] == '\t' || s[e] == '\r')) {
        return Some(None);
    }
    let start = skip_blank_exec(s, e);
    proof {
        lemma_skip_blank(s@, e as int);
    }
    if start > le {
        assert(is_blank(s@[le as int]));
        assert(false);
    }
    let end = trim_end_exec(s, start, le);
    if start >= end {
        return Some(None);
    }
    match value {
        None => None,
        Some(k) => {
            let mut name: Vec<char> = Vec::new();
            let mut x = start;
            while x < end
                invariant
                    start <= x <= end <= le <= s@.len(),
                    name@ == s@.subrange(start as int, x as int),
                decreases end - x,
            {
                name.push(s[x]);
                x = x + 1;
                assert(name@ =~= s@.subrange(start as int, x as int));
            }
            Some(Some((k, name)))
        },
    }
}

/// Parses the comment header starting at `i` (see `header`).
pub fn header_exec(s: &Vec<char>, i: usize) -> (r: Option<(Vec<(i32, Vec<char>)>, usize)>)
    requires
        i <= s@.len(),
    ensures
        match header(s@, i as int) {
            None => r is None,
            Some((names, p)) => r matches Some((v, q)) && q == p && names_view(v@) == names,
        },
    decreases s@.len() - i,
{
    let j = skip_ws_exec(s, i);
    proof {
        lemma_skip_ws(s@, i as int);
    }
    if j < s.len() && s[j] == 'c' {
        let le = line_end_exec(s, j + 1);
        proof {
            lemma_line_end(s@, j + 1);
        }
        match comment_var_exec(s, j, le) {
            None => None,
            Some(entry) => match header_exec(s, le) {
                None => None,
                Some((rest, p)) => {
                    match entry {
                        Some(x) => {
                            let ghost xv = (x.0 as int, x.1@);
                            let mut v: Vec<(i32, Vec<char>)> = Vec::new();
                            v.push(x);
                            let ghost first = v@;
                            let mut rest = rest;
                            let ghost rest_v = rest@;
                            v.append(&mut rest);
                            proof {
                                assert(v@ =~= first + rest_v);
                                assert(names_view(v@) =~= seq![xv] + names_view(rest_v));
                            }
                            Some((v, p))
                        },
                        None => Some((rest, p)),
                    }
                },
            },
        }
    } else {
        let v: Vec<(i32, Vec<char>)> = Vec::new();
        assert(names_view(v@) =~= Seq::<(int, Seq<char>)>::empty());
        Some((v, j))
    }
}

/// The variable names of a list of comment entries.
pub open spec fn names_view(v: Seq<(i32, Vec<char>)>) -> Seq<(int, Seq<char>)> {
    v.map_values(|x: (i32, Vec<char>)| (x.0 as int, x.1@))
}

/// Returns the name given to variable `k` by the last comment that names it (see `name_of`).
pub fn name_of_exec(names: &Vec<(i32, Vec<char>)>, k: i32) -> (r: Option<&Vec<char>>)
    ensures
        match name_of(names_view(names@), k as int) {
            None => r is None,
            Some(n) => r matches Some(x) && x@ == n,
        },
{
    let mut idx = names.len();
    assert(names@.take(names@.len() as int) =~= names@);
    while idx > 0
        invariant
            idx <= names@.len(),
            name_of(names_view(names@.take(idx as int)), k as int) == name_of(names_view(names@), k as int),
        decreases idx,
    {
        proof {
            assert(names_view(names@.take(idx as int)).drop_last() =~= names_view(names@.take(idx - 1)));
            assert(names_view(names@.take(idx as int)).last() == (names@[idx - 1].0 as int, names@[idx - 1].1@));
        }
        if names[idx - 1].0 == k {
            return Some(&names[idx - 1].1);
        }
        idx = idx - 1;
    }
    assert(names_view(names@.take(0)) =~= Seq::<(int, Seq<char>)>::empty());
    None
}

} // verus!
