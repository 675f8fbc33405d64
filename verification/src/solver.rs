//! Reading the output of external solvers.

use vstd::prelude::*;
use crate::lines::{lines, lines_of, parse_i32, parse_i32_exec, starts_with, starts_with_exec, words, words_from};
use crate::text::string_of;
use crate::var::VarId;

verus! {

/// The words of the lines starting with `v ` (the solution lines of a SAT solver), in order.
pub open spec fn solution_words(ls: Seq<Seq<char>>) -> Seq<Seq<char>>
    decreases ls.len(),
{
    if ls.len() == 0 {
        Seq::empty()
    } else {
        solution_words(ls.drop_last()) + if starts_with(ls.last(), seq!['v', ' ']) { words_from(ls.last(), ' ', 2) } else { Seq::empty() }
    }
}

/// The non-zero literals of a list of words, or the first word that is no literal.
pub open spec fn literals_of(ws: Seq<Seq<char>>) -> Result<Seq<VarId>, Seq<char>>
    decreases ws.len(),
{
    if ws.len() == 0 {
        Ok(Seq::empty())
    } else {
        match literals_of(ws.drop_last()) {
            Ok(ls) => match parse_i32(ws.last()) {
                Some(x) => Ok(if x != 0 { ls.push(x) } else { ls }),
                None => Err(ws.last()),
            },
            Err(w) => Err(w),
        }
    }
}

/// The solution a SAT solver printed: the literals on its `v ` lines, `None` if there are none
/// (the formula is unsatisfiable), or the first word that is no literal.
pub open spec fn solution_spec(out: Seq<char>) -> Result<Option<Seq<VarId>>, Seq<char>> {
    match literals_of(solution_words(lines_of(out))) {
        Ok(ls) => Ok(if ls.len() > 0 { Some(ls) } else { None }),
        Err(w) => Err(w),
    }
}

/// Returns the non-zero literals of a list of words, or the first word that is no literal (see `literals_of`).
fn literals_exec(ws: &Vec<Vec<char>>) -> (r: Result<Vec<VarId>, Vec<char>>)
    ensures
        match literals_of(ws@.map_values(|w: Vec<char>| w@)) {
            Ok(ls) => r matches Ok(v) && v@ == ls,
            Err(w) => r matches Err(x) && x@ == w,
        },
{
    let ghost wv = ws@.map_values(|w: Vec<char>| w@);
    let mut out: Vec<VarId> = Vec::new();
    let mut i: usize = 0;
    assert(wv.take(0) =~= Seq::<Seq<char>>::empty());
    while i < ws.len()
        invariant
            i <= ws@.len(),
            wv == ws@.map_values(|w: Vec<char>| w@),
            literals_of(wv.take(i as int)) == Ok::<Seq<VarId>, Seq<char>>(out@),
        decreases ws.len() - i,
    {
        proof {
            assert(wv.take(i + 1).drop_last() =~= wv.take(i as int));
            assert(wv.take(i + 1).last() == ws@[i as int]@);
            lemma_literals_prefix(wv, i + 1);
        }
        match parse_i32_exec(&ws[i]) {
            Some(x) => {
                if x != 0 {
                    out.push(x);
                }
            },
            None => {
                let mut w: Vec<char> = Vec::new();
                crate::text::push_all(&mut w, &ws[i]);
                return Err(w);
            },
        }
        i = i + 1;
    }
    assert(wv.take(ws@.len() as int) =~= wv);
    Ok(out)
}

/// Once reading literals fails on a prefix, it fails on the whole list with the same word.
proof fn lemma_literals_prefix(ws: Seq<Seq<char>>, k: int)
    requires
        0 <= k <= ws.len(),
    ensures
        literals_of(ws.take(k)) is Err ==> literals_of(ws) == literals_of(ws.take(k)),
    decreases ws.len() - k,
{
    if k < ws.len() {
        assert(ws.take(k + 1).drop_last() =~= ws.take(k));
        lemma_literals_prefix(ws, k + 1);
    } else {
        assert(ws.take(k) =~= ws);
    }
}

/// Reads the solution a SAT solver printed (see `solution_spec`).
pub fn parse_solution(output: &str) -> (r: Result<Option<Vec<VarId>>, String>)
    ensures
        match solution_spec(output@) {
            Ok(Some(ls)) => r matches Ok(Some(v)) && v@ == ls,
            Ok(None) => r matches Ok(None),
            Err(w) => r matches Err(e) && e@ == w,
        },
{
    let ls = lines(output);
    let ghost lv = ls@.map_values(|l: Vec<char>| l@);
    let mut ws: Vec<Vec<char>> = Vec::new();
    let mut i: usize = 0;
    assert(lv.take(0) =~= Seq::<Seq<char>>::empty());
    assert(ws@.map_values(|w: Vec<char>| w@) =~= solution_words(lv.take(0)));
    while i < ls.len()
        invariant
            i <= ls@.len(),
            lv == ls@.map_values(|l: Vec<char>| l@),
            ws@.map_values(|w: Vec<char>| w@) == solution_words(lv.take(i as int)),
        decreases ls.len() - i,
    {
        let ghost before = ws@.map_values(|w: Vec<char>| w@);
        proof {
            assert(lv.take(i + 1).drop_last() =~= lv.take(i as int));
            assert(lv.take(i + 1).last() == ls@[i as int]@);
        }
        if starts_with_exec(&ls[i], "v ") {
            proof {
                reveal_strlit("v ");
                assert("v "@ =~= seq!['v', ' ']);
            }
            let mut more = words(&ls[i], ' ', 2);
            let ghost mv = more@.map_values(|w: Vec<char>| w@);
            let ghost old_ws = ws@;
            ws.append(&mut more);
            proof {
                assert(ws@.map_values(|w: Vec<char>| w@) =~= old_ws.map_values(|w: Vec<char>| w@) + mv);
            }
        } else {
            proof {
                reveal_strlit("v ");
                assert("v "@ =~= seq!['v', ' ']);
                assert(solution_words(lv.take(i + 1)) =~= before);
            }
        }
        i = i + 1;
    }
    assert(lv.take(ls@.len() as int) =~= lv);
    match literals_exec(&ws) {
        Ok(v) => {
            if v.len() > 0 {
                Ok(Some(v))
            } else {
                Ok(None)
            }
        },
        Err(w) => Err(string_of(&w)),
    }
}

/// Whether some line starts with `s SATISFIABLE` (the verdict of a SAT solver).
pub open spec fn satisfiable_spec(out: Seq<char>) -> bool {
    exists|i: int| 0 <= i < lines_of(out).len() && starts_with(#[trigger] lines_of(out)[i], "s SATISFIABLE"@)
}

/// Returns whether a SAT solver's output says that the formula is satisfiable (see `satisfiable_spec`).
pub fn parse_satisfiable(output: &str) -> (r: bool)
    ensures
        r == satisfiable_spec(output@),
{
    let ls = lines(output);
    let ghost lv = ls@.map_values(|l: Vec<char>| l@);
    let mut i: usize = 0;
    while i < ls.len()
        invariant
            i <= ls@.len(),
            lv == ls@.map_values(|l: Vec<char>| l@),
            lv == lines_of(output@),
            forall|j: int| 0 <= j < i ==> !starts_with(#[trigger] lv[j], "s SATISFIABLE"@),
        decreases ls.len() - i,
    {
        if starts_with_exec(&ls[i], "s SATISFIABLE") {
            assert(lv[i as int] == ls@[i as int]@);
            return true;
        }
        assert(lv[i as int] == ls@[i as int]@);
        i = i + 1;
    }
    false
}

/// The text after `s ` on the first line that starts with it (the model count of a #SAT solver), if any.
pub open spec fn count_spec(out: Seq<char>) -> Option<Seq<char>> {
    count_from(lines_of(out), 0)
}

/// The text after `s ` on the first line at or after `i` that starts with it.
pub open spec fn count_from(ls: Seq<Seq<char>>, i: int) -> Option<Seq<char>>
    decreases ls.len() - i,
{
    if !(0 <= i < ls.len()) {
        None
    } else if starts_with(ls[i], seq!['s', ' ']) {
        Some(ls[i].subrange(2, ls[i].len() as int))
    } else {
        count_from(ls, i + 1)
    }
}

/// Returns the model count a #SAT solver printed, as text (see `count_spec`).
pub fn parse_count(output: &str) -> (r: Option<String>)
    ensures
        match count_spec(output@) {
            Some(c) => r matches Some(s) && s@ == c,
            None => r is None,
        },
{
    let ls = lines(output);
    let ghost lv = ls@.map_values(|l: Vec<char>| l@);
    proof {
        reveal_strlit("s ");
        assert("s "@ =~= seq!['s', ' ']);
    }
    let mut i: usize = 0;
    while i < ls.len()
        invariant
            i <= ls@.len(),
            lv == ls@.map_values(|l: Vec<char>| l@),
            lv == lines_of(output@),
            "s "@ == seq!['s', ' '],
            count_from(lv, i as int) == count_from(lv, 0),
        decreases ls.len() - i,
    {
        assert(lv[i as int] == ls@[i as int]@);
        if starts_with_exec(&ls[i], "s ") {
            let line = &ls[i];
            let mut out: Vec<char> = Vec::new();
            let mut k: usize = 2;
            while k < line.len()
                invariant
                    2 <= k <= line@.len(),
                    out@ == line@.subrange(2, k as int),
                decreases line.len() - k,
            {
                out.push(line[k]);
                k = k + 1;
                assert(out@ =~= line@.subrange(2, k as int));
            }
            return Some(string_of(&out));
        }
        i = i + 1;
    }
    None
}

/// Reads one solution line of an AllSAT solver: its non-zero literals, separated by spaces, or the
/// first word that is no literal.
pub fn parse_solution_line(line: &str) -> (r: Result<Vec<VarId>, String>)
    ensures
        match literals_of(words_from(line@, ' ', 0)) {
            Ok(ls) => r matches Ok(v) && v@ == ls,
            Err(w) => r matches Err(e) && e@ == w,
        },
{
    let cs = crate::text::chars_of(line);
    let ws = words(&cs, ' ', 0);
    match literals_exec(&ws) {
        Ok(v) => Ok(v),
        Err(w) => Err(string_of(&w)),
    }
}

} // verus!
