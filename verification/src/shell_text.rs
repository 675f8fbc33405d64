//! Reading the text files of the shell: variable lists, variable mappings and configuration.

use vstd::prelude::*;
use crate::diff::VarMap;
use crate::io::{trimmed, trimmed_exec};
use crate::lines::{lines, lines_of};
use crate::shell::strings_view;
use crate::syntax::{is_ws, lemma_skip_ws, skip_ws, skip_ws_exec};
use crate::text::string_of;

verus! {

/// Returns `s` without leading and trailing whitespace (see `trimmed`).
fn trim(s: &Vec<char>) -> (r: Vec<char>)
    ensures
        r@ == trimmed(s@, 0, s@.len() as int),
{
    trimmed_exec(s, 0, s.len())
}

/// The trimmed non-empty lines of a text.
pub open spec fn name_lines(ls: Seq<Seq<char>>) -> Seq<Seq<char>>
    decreases ls.len(),
{
    if ls.len() == 0 {
        Seq::empty()
    } else {
        let t = trimmed(ls.last(), 0, ls.last().len() as int);
        name_lines(ls.drop_last()) + if t.len() > 0 { seq![t] } else { Seq::empty() }
    }
}

/// Returns the variable names listed in a text, one per line (see `name_lines`).
pub fn variable_names(contents: &str) -> (r: Vec<String>)
    ensures
        strings_view(r@) == name_lines(lines_of(contents@)),
{
    let ls = lines(contents);
    let ghost lv = ls@.map_values(|l: Vec<char>| l@);
    let mut out: Vec<String> = Vec::new();
    let mut i: usize = 0;
    assert(lv.take(0) =~= Seq::<Seq<char>>::empty());
    while i < ls.len()
        invariant
            i <= ls@.len(),
            lv == ls@.map_values(|l: Vec<char>| l@),
            lv == lines_of(contents@),
            strings_view(out@) == name_lines(lv.take(i as int)),
        decreases ls.len() - i,
    {
        let t = trim(&ls[i]);
        let ghost before = out@;
        proof {
            assert(lv.take(i + 1).drop_last() =~= lv.take(i as int));
            assert(lv.take(i + 1).last() == ls@[i as int]@);
        }
        if t.len() > 0 {
            out.push(string_of(&t));
            assert(strings_view(out@) =~= strings_view(before) + seq![t@]);
        }
        assert(strings_view(out@) =~= name_lines(lv.take(i + 1)));
        i = i + 1;
    }
    assert(lv.take(ls@.len() as int) =~= lv);
    out
}

/// The parts of `s[i..]` separated by `sep`, including empty ones, with a last part after the last separator.
pub open spec fn parts_from(s: Seq<char>, sep: char, i: int) -> Seq<Seq<char>>
    decreases s.len() - i,
{
    if !(0 <= i <= s.len()) {
        Seq::empty()
    } else {
        let e = part_end(s, sep, i);
        proof {
            lemma_part_end(s, sep, i);
        }
        if e < s.len() {
            seq![s.subrange(i, e)] + parts_from(s, sep, e + 1)
        } else {
            seq![s.subrange(i, e)]
        }
    }
}

/// The position of the next separator at or after `i`, or the end of the text.
pub open spec fn part_end(s: Seq<char>, sep: char, i: int) -> int
    decreases s.len() - i,
{
    if 0 <= i < s.len() && s[i] != sep {
        part_end(s, sep, i + 1)
    } else {
        i
    }
}

pub proof fn lemma_part_end(s: Seq<char>, sep: char, i: int)
    requires
        0 <= i <= s.len(),
    ensures
        i <= part_end(s, sep, i) <= s.len(),
        part_end(s, sep, i) < s.len() ==> s[part_end(s, sep, i)] == sep,
    decreases s.len() - i,
{
    if i < s.len() && s[i] != sep {
        lemma_part_end(s, sep, i + 1);
    }
}

/// The trimmed non-empty parts of a list.
pub open spec fn nonempty_trimmed(ps: Seq<Seq<char>>) -> Seq<Seq<char>>
    decreases ps.len(),
{
    if ps.len() == 0 {
        Seq::empty()
    } else {
        let t = trimmed(ps.last(), 0, ps.last().len() as int);
        nonempty_trimmed(ps.drop_last()) + if t.len() > 0 { seq![t] } else { Seq::empty() }
    }
}

/// The variable names of one side of a mapping: the trimmed non-empty parts between commas.
pub open spec fn side_names(s: Seq<char>) -> Seq<Seq<char>> {
    nonempty_trimmed(parts_from(s, ',', 0))
}

/// Why a line of a variable-mapping file cannot be read; each holds the line.
#[derive(Debug)]
pub enum MapLineError {
    /// The line is not of the form `left=right`.
    Format(String),
    /// Some side names no variable.
    EmptySide(String),
    /// Both sides name several variables.
    Shape(String),
}

/// The first position of `c` in `s`, or the length of `s`.
pub open spec fn first_of(s: Seq<char>, c: char) -> int {
    part_end(s, c, 0)
}

/// What a (trimmed, non-empty, non-comment) mapping line says: its two sides, or its error kind
/// (0 for the format, 1 for an empty side, 2 for the shape).
pub open spec fn map_line_spec(t: Seq<char>) -> Result<(Seq<Seq<char>>, Seq<Seq<char>>), int> {
    let e = first_of(t, '=');
    if e >= t.len() {
        Err(0)
    } else {
        let l = side_names(t.subrange(0, e));
        let r = side_names(t.subrange(e + 1, t.len() as int));
        if l.len() == 0 || r.len() == 0 {
            Err(1)
        } else if !(l.len() == 1 || r.len() == 1) {
            Err(2)
        } else {
            Ok((l, r))
        }
    }
}

/// The mappings of the lines of a mapping file (trimmed; empty lines and lines starting with `#`
/// skipped), or the first bad line with its error kind.
pub open spec fn maps_of_lines(ls: Seq<Seq<char>>) -> Result<Seq<(Seq<Seq<char>>, Seq<Seq<char>>)>, (Seq<char>, int)>
    decreases ls.len(),
{
    if ls.len() == 0 {
        Ok(Seq::empty())
    } else {
        match maps_of_lines(ls.drop_last()) {
            Err(e) => Err(e),
            Ok(ms) => {
                let t = trimmed(ls.last(), 0, ls.last().len() as int);
                if t.len() == 0 || t[0] == '#' {
                    Ok(ms)
                } else {
                    match map_line_spec(t) {
                        Ok(m) => Ok(ms.push(m)),
                        Err(k) => Err((t, k)),
                    }
                }
            },
        }
    }
}

/// Returns the trimmed non-empty parts of `s[lo..hi]` between the separators `sep` (see `side_names`).
fn side_names_exec(s: &Vec<char>, lo: usize, hi: usize) -> (r: Vec<String>)
    requires
        lo <= hi <= s@.len(),
    ensures
        strings_view(r@) == side_names(s@.subrange(lo as int, hi as int)),
{
    let ghost t = s@.subrange(lo as int, hi as int);
    let mut part: Vec<char> = Vec::new();
    let mut k = lo;
    while k < hi
        invariant
            lo <= k <= hi <= s@.len(),
            part@ == s@.subrange(lo as int, k as int),
        decreases hi - k,
    {
        part.push(s[k]);
        k = k + 1;
        assert(part@ =~= s@.subrange(lo as int, k as int));
    }
    let ps = parts(&part, ',');
    let ghost pv = ps@.map_values(|p: Vec<char>| p@);
    let mut out: Vec<String> = Vec::new();
    let mut i: usize = 0;
    assert(pv.take(0) =~= Seq::<Seq<char>>::empty());
    while i < ps.len()
        invariant
            i <= ps@.len(),
            pv == ps@.map_values(|p: Vec<char>| p@),
            pv == parts_from(t, ',', 0),
            strings_view(out@) == nonempty_trimmed(pv.take(i as int)),
        decreases ps.len() - i,
    {
        let tr = trim(&ps[i]);
        let ghost before = out@;
        proof {
            assert(pv.take(i + 1).drop_last() =~= pv.take(i as int));
            assert(pv.take(i + 1).last() == ps@[i as int]@);
        }
        if tr.len() > 0 {
            out.push(string_of(&tr));
            assert(strings_view(out@) =~= strings_view(before) + seq![tr@]);
        }
        assert(strings_view(out@) =~= nonempty_trimmed(pv.take(i + 1)));
        i = i + 1;
    }
    assert(pv.take(ps@.len() as int) =~= pv);
    out
}

/// Returns the parts of `s` separated by `sep` (see `parts_from`).
fn parts(s: &Vec<char>, sep: char) -> (r: Vec<Vec<char>>)
    ensures
        r@.map_values(|p: Vec<char>| p@) == parts_from(s@, sep, 0),
{
    let mut out: Vec<Vec<char>> = Vec::new();
    let mut i: usize = 0;
    proof {
        assert(out@.map_values(|p: Vec<char>| p@) + parts_from(s@, sep, 0) =~= parts_from(s@, sep, 0));
    }
    loop
        invariant
            i <= s@.len(),
            out@.map_values(|p: Vec<char>| p@) + parts_from(s@, sep, i as int) == parts_from(s@, sep, 0),
        decreases s@.len() - i,
    {
        proof {
            lemma_part_end(s@, sep, i as int);
        }
        let mut p: Vec<char> = Vec::new();
        let start = i;
        while i < s.len() && s[i] != sep
            invariant
                start <= i <= s@.len(),
                part_end(s@, sep, i as int) == part_end(s@, sep, start as int),
                p@ == s@.subrange(start as int, i as int),
            decreases s.len() - i,
        {
            p.push(s[i]);
            i = i + 1;
            assert(p@ =~= s@.subrange(start as int, i as int));
        }
        let ghost before = out@;
        let ghost pv = p@;
        out.push(p);
        if i < s.len() {
            proof {
                assert(out@.map_values(|p: Vec<char>| p@) + parts_from(s@, sep, i + 1)
                    =~= before.map_values(|p: Vec<char>| p@) + parts_from(s@, sep, start as int));
            }
            i = i + 1;
        } else {
            proof {
                assert(out@.map_values(|p: Vec<char>| p@) =~= before.map_values(|p: Vec<char>| p@) + parts_from(s@, sep, start as int));
            }
            return out;
        }
    }
}

/// Reads a variable-mapping file: one mapping `left=right` per line, each side a comma-separated
/// list of variable names (see `maps_of_lines`); fails with the first bad line.
pub fn parse_variable_map(contents: &str) -> (r: Result<Vec<VarMap>, MapLineError>)
    ensures
        match maps_of_lines(lines_of(contents@)) {
            Ok(ms) => r matches Ok(v) && v@.len() == ms.len()
                && forall|i: int| 0 <= i < ms.len() ==> strings_view(#[trigger] v@[i].left@) == ms[i].0 && strings_view(v@[i].right@) == ms[i].1,
            Err((t, k)) => r matches Err(e) && match e {
                MapLineError::Format(x) => k == 0 && x@ == t,
                MapLineError::EmptySide(x) => k == 1 && x@ == t,
                MapLineError::Shape(x) => k == 2 && x@ == t,
            },
        },
{
    let ls = lines(contents);
    let ghost lv = ls@.map_values(|l: Vec<char>| l@);
    let mut out: Vec<VarMap> = Vec::new();
    let ghost mut ms: Seq<(Seq<Seq<char>>, Seq<Seq<char>>)> = Seq::empty();
    let mut i: usize = 0;
    assert(lv.take(0) =~= Seq::<Seq<char>>::empty());
    while i < ls.len()
        invariant
            i <= ls@.len(),
            lv == ls@.map_values(|l: Vec<char>| l@),
            lv == lines_of(contents@),
            maps_of_lines(lv.take(i as int)) == Ok::<Seq<(Seq<Seq<char>>, Seq<Seq<char>>)>, (Seq<char>, int)>(ms),
            out@.len() == ms.len(),
            forall|j: int| 0 <= j < ms.len() ==> strings_view(#[trigger] out@[j].left@) == ms[j].0 && strings_view(out@[j].right@) == ms[j].1,
        decreases ls.len() - i,
    {
        proof {
            assert(lv.take(i + 1).drop_last() =~= lv.take(i as int));
            assert(lv.take(i + 1).last() == ls@[i as int]@);
            lemma_maps_of_lines_prefix(lv, i + 1);
        }
        let t = trim(&ls[i]);
        if t.len() == 0 || t[0] == '#' {
            i = i + 1;
            continue;
        }
        proof {
            lemma_part_end(t@, '=', 0);
        }
        let mut e: usize = 0;
        while e < t.len() && t[e] != '='
            invariant
                e <= t@.len(),
                part_end(t@, '=', e as int) == part_end(t@, '=', 0),
            decreases t.len() - e,
        {
            e = e + 1;
        }
        if e >= t.len() {
            return Err(MapLineError::Format(string_of(&t)));
        }
        let left = side_names_exec(&t, 0, e);
        let right = side_names_exec(&t, e + 1, t.len());
        if left.len() == 0 || right.len() == 0 {
            return Err(MapLineError::EmptySide(string_of(&t)));
        }
        if !(left.len() == 1 || right.len() == 1) {
            return Err(MapLineError::Shape(string_of(&t)));
        }
        let ghost m = (strings_view(left@), strings_view(right@));
        out.push(VarMap { left, right });
        proof {
            ms = ms.push(m);
        }
        i = i + 1;
    }
    assert(lv.take(ls@.len() as int) =~= lv);
    Ok(out)
}

/// Once reading mappings fails on a prefix of the lines, it fails on all of them in the same way.
proof fn lemma_maps_of_lines_prefix(ls: Seq<Seq<char>>, k: int)
    requires
        0 <= k <= ls.len(),
    ensures
        maps_of_lines(ls.take(k)) is Err ==> maps_of_lines(ls) == maps_of_lines(ls.take(k)),
    decreases ls.len() - k,
{
    if k < ls.len() {
        assert(ls.take(k + 1).drop_last() =~= ls.take(k));
        lemma_maps_of_lines_prefix(ls, k + 1);
    } else {
        assert(ls.take(k) =~= ls);
    }
}

/// The words of `s[i..]` separated by whitespace.
pub open spec fn ws_words_from(s: Seq<char>, i: int) -> Seq<Seq<char>>
    decreases s.len() - i,
{
    if !(0 <= i < s.len()) {
        Seq::empty()
    } else if is_ws(s[i]) {
        ws_words_from(s, i + 1)
    } else {
        let e = ws_word_end(s, i);
        proof {
            lemma_ws_word_end(s, i);
        }
        seq![s.subrange(i, e)] + ws_words_from(s, e)
    }
}

/// The end of the word starting at `i`: the next whitespace, or the end of the text.
pub open spec fn ws_word_end(s: Seq<char>, i: int) -> int
    decreases s.len() - i,
{
    if 0 <= i < s.len() && !is_ws(s[i]) {
        ws_word_end(s, i + 1)
    } else {
        i
    }
}

pub proof fn lemma_ws_word_end(s: Seq<char>, i: int)
    requires
        0 <= i <= s.len(),
    ensures
        i <= ws_word_end(s, i) <= s.len(),
        i < s.len() && !is_ws(s[i]) ==> i < ws_word_end(s, i),
    decreases s.len() - i,
{
    if i < s.len() && !is_ws(s[i]) {
        lemma_ws_word_end(s, i + 1);
    }
}

/// The arguments of a configuration file: the whitespace-separated words of its lines, except
/// lines whose first non-whitespace character is `#`.
pub open spec fn config_words(ls: Seq<Seq<char>>) -> Seq<Seq<char>>
    decreases ls.len(),
{
    if ls.len() == 0 {
        Seq::empty()
    } else {
        let l = ls.last();
        let j = skip_ws(l, 0);
        config_words(ls.drop_last()) + if j < l.len() && l[j] == '#' { Seq::empty() } else { ws_words_from(l, 0) }
    }
}

/// Returns the whitespace-separated words of `s` (see `ws_words_from`).
fn ws_words(s: &Vec<char>) -> (r: Vec<String>)
    ensures
        strings_view(r@) == ws_words_from(s@, 0),
{
    let mut out: Vec<String> = Vec::new();
    let mut k: usize = 0;
    proof {
        assert(strings_view(out@) + ws_words_from(s@, 0) =~= ws_words_from(s@, 0));
    }
    while k < s.len()
        invariant
            k <= s@.len(),
            strings_view(out@) + ws_words_from(s@, k as int) == ws_words_from(s@, 0),
        decreases s.len() - k,
    {
        if s[k] == ' ' || s[k] == '\t' || s[k] == '\n' || s[k] == '\r' {
            k = k + 1;
        } else {
            proof {
                lemma_ws_word_end(s@, k as int);
            }
            let start = k;
            let mut w: Vec<char> = Vec::new();
            while k < s.len() && !(s[k] == ' ' || s[k] == '\t' || s[k] == '\n' || s[k] == '\r')
                invariant
                    start <= k <= s@.len(),
                    ws_word_end(s@, k as int) == ws_word_end(s@, start as int),
                    w@ == s@.subrange(start as int, k as int),
                decreases s.len() - k,
            {
                w.push(s[k]);
                k = k + 1;
                assert(w@ =~= s@.subrange(start as int, k as int));
            }
            let ghost before = out@;
            let ghost wv = w@;
            out.push(string_of(&w));
            proof {
                assert(strings_view(out@) =~= strings_view(before).push(wv));
                assert(strings_view(out@) + ws_words_from(s@, k as int) =~= strings_view(before) + ws_words_from(s@, start as int));
            }
        }
    }
    proof {
        assert(ws_words_from(s@, k as int) =~= Seq::<Seq<char>>::empty());
        assert(strings_view(out@) =~= strings_view(out@) + ws_words_from(s@, k as int));
    }
    out
}

/// Returns the arguments of a configuration file (see `config_words`).
pub fn config_args(contents: &str) -> (r: Vec<String>)
    ensures
        strings_view(r@) == config_words(lines_of(contents@)),
{
    let ls = lines(contents);
    let ghost lv = ls@.map_values(|l: Vec<char>| l@);
    let mut out: Vec<String> = Vec::new();
    let mut i: usize = 0;
    assert(lv.take(0) =~= Seq::<Seq<char>>::empty());
    while i < ls.len()
        invariant
            i <= ls@.len(),
            lv == ls@.map_values(|l: Vec<char>| l@),
            lv == lines_of(contents@),
            strings_view(out@) == config_words(lv.take(i as int)),
        decreases ls.len() - i,
    {
        let l = &ls[i];
        proof {
            assert(lv.take(i + 1).drop_last() =~= lv.take(i as int));
            assert(lv.take(i + 1).last() == l@);
            lemma_skip_ws(l@, 0);
        }
        let j = skip_ws_exec(l, 0);
        let ghost before = out@;
        if !(j < l.len() && l[j] == '#') {
            let mut more = ws_words(l);
            let ghost mv = more@;
            out.append(&mut more);
            assert(strings_view(out@) =~= strings_view(before) + strings_view(mv));
        }
        assert(strings_view(out@) =~= config_words(lv.take(i + 1)));
        i = i + 1;
    }
    assert(lv.take(ls@.len() as int) =~= lv);
    out
}

} // verus!
