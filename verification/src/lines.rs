//! Splitting text into lines and words.

use vstd::prelude::*;
use crate::syntax::{is_digit, is_ws, lemma_line_end, line_end, line_end_exec};
use crate::text::{chars_of, string_of};

verus! {

/// The lines of `s[i..]`: split at each `\n`, a `\r` right before it removed, and no empty last
/// line after a final `\n`.
pub open spec fn lines_from(s: Seq<char>, i: int) -> Seq<Seq<char>>
    decreases s.len() - i,
{
    if !(0 <= i < s.len()) {
        Seq::empty()
    } else {
        let le = line_end(s, i);
        proof {
            lemma_line_end(s, i);
        }
        let line = if le < s.len() && le > i && s[le - 1] == '\r' { s.subrange(i, le - 1) } else { s.subrange(i, le) };
        seq![line] + if le < s.len() { lines_from(s, le + 1) } else { Seq::empty() }
    }
}

/// The lines of a text (see `lines_from`).
pub open spec fn lines_of(s: Seq<char>) -> Seq<Seq<char>> {
    lines_from(s, 0)
}

/// Returns the lines of a text (see `lines_of`).
pub fn lines(s: &str) -> (r: Vec<Vec<char>>)
    ensures
        r@.map_values(|l: Vec<char>| l@) == lines_of(s@),
{
    let cs = chars_of(s);
    let mut out: Vec<Vec<char>> = Vec::new();
    let mut i: usize = 0;
    proof {
        assert(out@.map_values(|l: Vec<char>| l@) + lines_from(cs@, 0) =~= lines_of(s@));
    }
    while i < cs.len()
        invariant
            i <= cs@.len(),
            cs@ == s@,
            out@.map_values(|l: Vec<char>| l@) + lines_from(cs@, i as int) == lines_of(s@),
        decreases cs.len() - i,
    {
        let le = line_end_exec(&cs, i);
        proof {
            lemma_line_end(cs@, i as int);
        }
        let end = if le < cs.len() && le > i && cs[le - 1] == '\r' { le - 1 } else { le };
        let mut line: Vec<char> = Vec::new();
        let mut k = i;
        while k < end
            invariant
                i <= k <= end <= cs@.len(),
                line@ == cs@.subrange(i as int, k as int),
            decreases end - k,
        {
            line.push(cs[k]);
            k = k + 1;
            assert(line@ =~= cs@.subrange(i as int, k as int));
        }
        let ghost before = out@;
        let ghost lv = line@;
        out.push(line);
        proof {
            assert(out@.map_values(|l: Vec<char>| l@) =~= before.map_values(|l: Vec<char>| l@).push(lv));
            if le + 1 > cs@.len() {
                assert(lines_from(cs@, le + 1) =~= Seq::<Seq<char>>::empty());
            }
            assert(out@.map_values(|l: Vec<char>| l@) + lines_from(cs@, le + 1)
                =~= before.map_values(|l: Vec<char>| l@) + lines_from(cs@, i as int));
        }
        i = if le < cs.len() { le + 1 } else { le };
    }
    proof {
        assert(lines_from(cs@, i as int) =~= Seq::<Seq<char>>::empty());
        assert(out@.map_values(|l: Vec<char>| l@) =~= out@.map_values(|l: Vec<char>| l@) + lines_from(cs@, i as int));
    }
    out
}

/// The words of `s[i..]` separated by the character `sep`, without empty words.
pub open spec fn words_from(s: Seq<char>, sep: char, i: int) -> Seq<Seq<char>>
    decreases s.len() - i,
{
    if !(0 <= i < s.len()) {
        Seq::empty()
    } else if s[i] == sep {
        words_from(s, sep, i + 1)
    } else {
        let e = word_end(s, sep, i);
        proof {
            lemma_word_end(s, sep, i);
        }
        seq![s.subrange(i, e)] + words_from(s, sep, e)
    }
}

/// The end of the word starting at `i`: the next separator, or the end of the text.
pub open spec fn word_end(s: Seq<char>, sep: char, i: int) -> int
    decreases s.len() - i,
{
    if 0 <= i < s.len() && s[i] != sep {
        word_end(s, sep, i + 1)
    } else {
        i
    }
}

pub proof fn lemma_word_end(s: Seq<char>, sep: char, i: int)
    requires
        0 <= i <= s.len(),
    ensures
        i <= word_end(s, sep, i) <= s.len(),
        i < s.len() && s[i] != sep ==> i < word_end(s, sep, i),
    decreases s.len() - i,
{
    if i < s.len() && s[i] != sep {
        lemma_word_end(s, sep, i + 1);
    }
}

/// Returns the non-empty words of `s[i..]` separated by `sep` (see `words_from`).
pub fn words(s: &Vec<char>, sep: char, i: usize) -> (r: Vec<Vec<char>>)
    requires
        i <= s@.len(),
    ensures
        r@.map_values(|w: Vec<char>| w@) == words_from(s@, sep, i as int),
{
    let mut out: Vec<Vec<char>> = Vec::new();
    let mut k = i;
    proof {
        assert(out@.map_values(|w: Vec<char>| w@) + words_from(s@, sep, i as int) =~= words_from(s@, sep, i as int));
    }
    while k < s.len()
        invariant
            i <= k <= s@.len(),
            out@.map_values(|w: Vec<char>| w@) + words_from(s@, sep, k as int) == words_from(s@, sep, i as int),
        decreases s.len() - k,
    {
        if s[k] == sep {
            k = k + 1;
        } else {
            proof {
                lemma_word_end(s@, sep, k as int);
            }
            let mut w: Vec<char> = Vec::new();
            let start = k;
            while k < s.len() && s[k] != sep
                invariant
                    start <= k <= s@.len(),
                    word_end(s@, sep, k as int) == word_end(s@, sep, start as int),
                    w@ == s@.subrange(start as int, k as int),
                decreases s.len() - k,
            {
                w.push(s[k]);
                k = k + 1;
                assert(w@ =~= s@.subrange(start as int, k as int));
            }
            let ghost before = out@;
            let ghost wv = w@;
            out.push(w);
            proof {
                assert(out@.map_values(|w: Vec<char>| w@) =~= before.map_values(|w: Vec<char>| w@).push(wv));
                assert(out@.map_values(|w: Vec<char>| w@) + words_from(s@, sep, k as int)
                    =~= before.map_values(|w: Vec<char>| w@) + words_from(s@, sep, start as int));
            }
        }
    }
    proof {
        assert(words_from(s@, sep, k as int) =~= Seq::<Seq<char>>::empty());
        assert(out@.map_values(|w: Vec<char>| w@) =~= out@.map_values(|w: Vec<char>| w@) + words_from(s@, sep, k as int));
    }
    out
}

/// Whether `s` starts with `p`.
pub open spec fn starts_with(s: Seq<char>, p: Seq<char>) -> bool {
    p.len() <= s.len() && s.subrange(0, p.len() as int) == p
}

/// Returns whether `s` starts with `p`.
pub fn starts_with_exec(s: &Vec<char>, p: &str) -> (r: bool)
    ensures
        r == starts_with(s@, p@),
{
    let pc = chars_of(p);
    if pc.len() > s.len() {
        return false;
    }
    let mut k: usize = 0;
    while k < pc.len()
        invariant
            pc@ == p@,
            pc@.len() <= s@.len(),
            k <= pc@.len(),
            forall|x: int| 0 <= x < k ==> s@[x] == pc@[x],
        decreases pc.len() - k,
    {
        if s[k] != pc[k] {
            assert(s@.subrange(0, pc@.len() as int)[k as int] != pc@[k as int]);
            return false;
        }
        k = k + 1;
    }
    assert(s@.subrange(0, pc@.len() as int) =~= pc@);
    true
}

/// The value of a decimal numeral with an optional sign, as `i32::from_str` reads it, if it is one
/// within the range of `i32`.
pub open spec fn parse_i32(w: Seq<char>) -> Option<i32> {
    let neg = w.len() > 0 && w[0] == '-';
    let start: int = if w.len() > 0 && (w[0] == '-' || w[0] == '+') { 1 } else { 0 };
    if start >= w.len() || !(forall|k: int| start <= k < w.len() ==> is_digit(#[trigger] w[k])) {
        None
    } else {
        let v = crate::syntax::digits_value(w, start, w.len() as int);
        let x = if neg { -v } else { v };
        if i32::MIN <= x <= i32::MAX { Some(x as i32) } else { None }
    }
}

/// Reads a decimal numeral with an optional sign (see `parse_i32`).
#[verifier::loop_isolation(false)]
pub fn parse_i32_exec(w: &Vec<char>) -> (r: Option<i32>)
    ensures
        r == parse_i32(w@),
{
    if w.len() == 0 {
        return None;
    }
    let neg = w[0] == '-';
    let start: usize = if w[0] == '-' || w[0] == '+' { 1 } else { 0 };
    if start >= w.len() {
        return None;
    }
    let mut k = start;
    let mut v: i64 = 0;
    while k < w.len()
        invariant
            start <= k <= w@.len(),
            start >= 1 ==> (w@[0] == '-' || w@[0] == '+'),
            forall|x: int| start <= x < k ==> is_digit(#[trigger] w@[x]),
            v == crate::syntax::digits_value(w@, start as int, k as int),
            0 <= v <= 2147483648,
        decreases w.len() - k,
    {
        if !('0' <= w[k] && w[k] <= '9') {
            assert(!is_digit(w@[k as int]));
            return None;
        }
        proof {
            crate::syntax::lemma_digits_value_grows(w@, start as int, k as int);
        }
        let next = v * 10 + (w[k] as u32 - '0' as u32) as i64;
        assert(next == crate::syntax::digits_value(w@, start as int, k + 1));
        if next > 2147483648 {
            proof {
                if forall|x: int| start <= x < w@.len() ==> is_digit(#[trigger] w@[x]) {
                    lemma_digits_value_monotone(w@, start as int, k + 1, w@.len() as int);
                    assert(crate::syntax::digits_value(w@, start as int, w@.len() as int) > 2147483648);
                }
            }
            return None;
        }
        v = next;
        k = k + 1;
    }
    if neg {
        Some((-v) as i32)
    } else if v <= 2147483647 {
        Some(v as i32)
    } else {
        None
    }
}

/// More digits give a value at least as large.
proof fn lemma_digits_value_monotone(w: Seq<char>, i: int, j: int, k: int)
    requires
        i <= j <= k <= w.len(),
        forall|x: int| i <= x < k ==> is_digit(#[trigger] w[x]),
    ensures
        crate::syntax::digits_value(w, i, k) >= crate::syntax::digits_value(w, i, j),
    decreases k - j,
{
    if j < k {
        lemma_digits_value_monotone(w, i, j, k - 1);
        crate::syntax::lemma_digits_value_grows(w, i, k - 1);
    }
}

} // verus!
