//! Text exchanged with FeatureIDE: escaped variable names, UVL and XML fragments.

use vstd::prelude::*;
use std::collections::HashSet;
use crate::arena::{Arena, extends};
use crate::clauses::{Clauses, vars_view, clauses_view};
use crate::file::File;
use crate::formula::{Formula, selected_ids};
use crate::parser::ParseError;
use crate::parser::cnf::{CnfFormulaParser, cnf_parsed};
use crate::shell::strings_view;
use crate::syntax::{is_ws, lemma_skip_ws, skip_ws, skip_ws_exec};
use crate::text::{chars_of, push_all, push_str_chars, string_of};
use crate::var::{Var, VarId, VarV, var_name};

verus! {

/// The escape sequence for a character that FeatureIDE does not accept in names, if any.
pub open spec fn escape_of(c: char) -> Option<Seq<char>> {
    if c == '=' {
        Some("__EQUALS__"@)
    } else if c == ':' {
        Some("__COLON__"@)
    } else if c == '.' {
        Some("__DOT__"@)
    } else if c == ',' {
        Some("__COMMA__"@)
    } else if c == '/' {
        Some("__SLASH__"@)
    } else if c == '\\' {
        Some("__BACKSLASH__"@)
    } else if c == ' ' {
        Some("__SPACE__"@)
    } else if c == '-' {
        Some("__DASH__"@)
    } else {
        None
    }
}

/// A name with each character that FeatureIDE does not accept replaced by its escape sequence.
pub open spec fn escaped(s: Seq<char>) -> Seq<char>
    decreases s.len(),
{
    if s.len() == 0 {
        Seq::empty()
    } else {
        escaped(s.drop_last()) + match escape_of(s.last()) {
            Some(e) => e,
            None => seq![s.last()],
        }
    }
}

/// Returns a name with each character that FeatureIDE does not accept (`= : . , / \ space -`)
/// replaced by an escape sequence such as `__EQUALS__` (see `escaped`).
pub fn name_to_io(s: &str) -> (r: String)
    ensures
        r@ == escaped(s@),
{
    let cs = chars_of(s);
    let mut out: Vec<char> = Vec::new();
    let mut i: usize = 0;
    assert(cs@.take(0) =~= Seq::<char>::empty());
    while i < cs.len()
        invariant
            i <= cs@.len(),
            cs@ == s@,
            out@ == escaped(cs@.take(i as int)),
        decreases cs.len() - i,
    {
        let c = cs[i];
        let ghost before = out@;
        if c == '=' {
            push_str_chars(&mut out, "__EQUALS__");
        } else if c == ':' {
            push_str_chars(&mut out, "__COLON__");
        } else if c == '.' {
            push_str_chars(&mut out, "__DOT__");
        } else if c == ',' {
            push_str_chars(&mut out, "__COMMA__");
        } else if c == '/' {
            push_str_chars(&mut out, "__SLASH__");
        } else if c == '\\' {
            push_str_chars(&mut out, "__BACKSLASH__");
        } else if c == ' ' {
            push_str_chars(&mut out, "__SPACE__");
        } else if c == '-' {
            push_str_chars(&mut out, "__DASH__");
        } else {
            out.push(c);
        }
        proof {
            assert(cs@.take(i + 1).drop_last() =~= cs@.take(i as int));
            assert(cs@.take(i + 1).last() == c);
            assert(out@ =~= escaped(cs@.take(i + 1)));
        }
        i = i + 1;
    }
    assert(cs@.take(cs@.len() as int) =~= cs@);
    string_of(&out)
}

/// Whether `pat` occurs in `s` at position `i`.
pub open spec fn occurs_at(s: Seq<char>, pat: Seq<char>, i: int) -> bool {
    0 <= i && i + pat.len() <= s.len() && s.subrange(i, i + pat.len()) == pat
}

/// The text `s[i..]` with every occurrence of the non-empty `pat`, from left to right and without
/// overlaps, replaced by `rep`.
pub open spec fn replaced_from(s: Seq<char>, pat: Seq<char>, rep: Seq<char>, i: int) -> Seq<char>
    decreases s.len() - i,
{
    if !(0 <= i < s.len()) || pat.len() == 0 {
        if 0 <= i <= s.len() { s.subrange(i, s.len() as int) } else { Seq::empty() }
    } else if occurs_at(s, pat, i) {
        rep + replaced_from(s, pat, rep, i + pat.len())
    } else {
        seq![s[i]] + replaced_from(s, pat, rep, i + 1)
    }
}

/// The text `s` with every occurrence of `pat` replaced by `rep` (see `replaced_from`).
pub open spec fn replaced(s: Seq<char>, pat: Seq<char>, rep: Seq<char>) -> Seq<char> {
    replaced_from(s, pat, rep, 0)
}

/// Returns whether `pat` occurs in `s` at position `i`.
fn occurs_at_exec(s: &Vec<char>, pat: &Vec<char>, i: usize) -> (r: bool)
    ensures
        r == occurs_at(s@, pat@, i as int),
{
    if i > s.len() || pat.len() > s.len() - i {
        return false;
    }
    let mut k: usize = 0;
    while k < pat.len()
        invariant
            i + pat@.len() <= s@.len(),
            s@.len() == s.len(),
            k <= pat@.len(),
            forall|x: int| 0 <= x < k ==> s@[i + x] == pat@[x],
        decreases pat.len() - k,
    {
        if s[i + k] != pat[k] {
            assert(s@.subrange(i as int, i + pat@.len())[k as int] != pat@[k as int]);
            return false;
        }
        k = k + 1;
    }
    assert(s@.subrange(i as int, i + pat@.len()) =~= pat@);
    true
}

/// Returns `s` with every occurrence of `pat` replaced by `rep` (see `replaced`).
pub fn replace_all(s: &Vec<char>, pat: &Vec<char>, rep: &Vec<char>) -> (r: Vec<char>)
    ensures
        r@ == replaced(s@, pat@, rep@),
{
    let mut out: Vec<char> = Vec::new();
    let mut i: usize = 0;
    if pat.len() == 0 {
        assert(s@.subrange(0, s@.len() as int) =~= s@);
        let mut copy: Vec<char> = Vec::new();
        push_all(&mut copy, s);
        return copy;
    }
    while i < s.len()
        invariant
            i <= s@.len(),
            pat@.len() > 0,
            out@ + replaced_from(s@, pat@, rep@, i as int) == replaced(s@, pat@, rep@),
        decreases s.len() - i,
    {
        let ghost before = out@;
        if occurs_at_exec(s, pat, i) {
            push_all(&mut out, rep);
            proof {
                assert(out@ + replaced_from(s@, pat@, rep@, i + pat@.len()) =~= before + replaced_from(s@, pat@, rep@, i as int));
            }
            i = i + pat.len();
        } else {
            out.push(s[i]);
            proof {
                assert(out@ + replaced_from(s@, pat@, rep@, i + 1) =~= before + replaced_from(s@, pat@, rep@, i as int));
            }
            i = i + 1;
        }
    }
    proof {
        assert(s@.subrange(i as int, s@.len() as int) =~= Seq::<char>::empty());
        assert(out@ =~= out@ + replaced_from(s@, pat@, rep@, i as int));
    }
    out
}

/// Replaces every occurrence of a string literal.
fn replace_str(s: &Vec<char>, pat: &str, rep: &str) -> (r: Vec<char>)
    ensures
        r@ == replaced(s@, pat@, rep@),
{
    replace_all(s, &chars_of(pat), &chars_of(rep))
}

/// A name with FeatureIDE's escape sequences replaced by the characters they stand for,
/// one kind of sequence after the other.
pub open spec fn unescaped(s: Seq<char>) -> Seq<char> {
    replaced(replaced(replaced(replaced(replaced(replaced(replaced(replaced(s,
        "__EQUALS__"@, "="@), "__COLON__"@, ":"@), "__DOT__"@, "."@), "__COMMA__"@, ","@),
        "__SLASH__"@, "/"@), "__BACKSLASH__"@, "\\"@), "__SPACE__"@, " "@), "__DASH__"@, "-"@)
}

/// Returns a text with FeatureIDE's escape sequences (see `name_to_io`) replaced by the
/// characters they stand for (see `unescaped`).
pub fn name_from_io(s: &str) -> (r: String)
    ensures
        r@ == unescaped(s@),
{
    let t = chars_of(s);
    let t = replace_str(&t, "__EQUALS__", "=");
    let t = replace_str(&t, "__COLON__", ":");
    let t = replace_str(&t, "__DOT__", ".");
    let t = replace_str(&t, "__COMMA__", ",");
    let t = replace_str(&t, "__SLASH__", "/");
    let t = replace_str(&t, "__BACKSLASH__", "\\");
    let t = replace_str(&t, "__SPACE__", " ");
    let t = replace_str(&t, "__DASH__", "-");
    string_of(&t)
}

/// Returns an XML feature model with constraints inserted after each `</struct>`.
pub fn xml_with_constraints(xml: &str, constraints: &str) -> (r: String)
    ensures
        r@ == replaced(xml@, "</struct>"@, "</struct>\n"@ + constraints@),
{
    let mut rep = chars_of("</struct>\n");
    let c = chars_of(constraints);
    push_all(&mut rep, &c);
    string_of(&replace_all(&chars_of(xml), &chars_of("</struct>"), &rep))
}

/// The first position at or after `i` where `pat` occurs in `s`, or the length of `s`.
pub open spec fn find_from(s: Seq<char>, pat: Seq<char>, i: int) -> int
    decreases s.len() - i,
{
    if !(0 <= i < s.len()) {
        s.len() as int
    } else if occurs_at(s, pat, i) {
        i
    } else {
        find_from(s, pat, i + 1)
    }
}

/// The end of `s[lo..hi]` without trailing whitespace.
pub open spec fn trim_ws_end(s: Seq<char>, lo: int, hi: int) -> int
    decreases hi - lo,
{
    if lo < hi && is_ws(s[hi - 1]) {
        trim_ws_end(s, lo, hi - 1)
    } else {
        hi
    }
}

/// `s[lo..hi]` without leading and trailing whitespace.
pub open spec fn trimmed(s: Seq<char>, lo: int, hi: int) -> Seq<char> {
    let start = skip_ws(s, lo);
    if start >= hi {
        Seq::empty()
    } else {
        s.subrange(start, trim_ws_end(s, start, hi))
    }
}

/// The part of a UVL model before its constraints section, without surrounding whitespace.
pub open spec fn uvl_without_constraints(uvl: Seq<char>) -> Seq<char> {
    trimmed(uvl, 0, find_from(uvl, "\nconstraints\n"@, 0))
}

proof fn lemma_find_from(s: Seq<char>, pat: Seq<char>, i: int)
    requires
        0 <= i <= s.len(),
    ensures
        i <= find_from(s, pat, i) <= s.len(),
        find_from(s, pat, i) < s.len() ==> occurs_at(s, pat, find_from(s, pat, i)),
    decreases s.len() - i,
{
    if i < s.len() && !occurs_at(s, pat, i) {
        lemma_find_from(s, pat, i + 1);
    }
}

proof fn lemma_trim_ws_end(s: Seq<char>, lo: int, hi: int)
    requires
        lo <= hi,
    ensures
        lo <= trim_ws_end(s, lo, hi) <= hi,
    decreases hi - lo,
{
    if lo < hi && is_ws(s[hi - 1]) {
        lemma_trim_ws_end(s, lo, hi - 1);
    }
}

/// Returns the first position at or after `i` where `pat` occurs in `s` (see `find_from`).
fn find_from_exec(s: &Vec<char>, pat: &Vec<char>, i: usize) -> (r: usize)
    requires
        i <= s@.len(),
    ensures
        r == find_from(s@, pat@, i as int),
{
    let mut k = i;
    while k < s.len()
        invariant
            i <= k <= s@.len(),
            find_from(s@, pat@, k as int) == find_from(s@, pat@, i as int),
        decreases s.len() - k,
    {
        if occurs_at_exec(s, pat, k) {
            return k;
        }
        k = k + 1;
    }
    k
}

/// Returns `s[lo..hi]` without leading and trailing whitespace (see `trimmed`).
pub fn trimmed_exec(s: &Vec<char>, lo: usize, hi: usize) -> (r: Vec<char>)
    requires
        lo <= hi <= s@.len(),
    ensures
        r@ == trimmed(s@, lo as int, hi as int),
{
    let start = skip_ws_exec(s, lo);
    proof {
        lemma_skip_ws(s@, lo as int);
    }
    let mut out: Vec<char> = Vec::new();
    if start >= hi {
        return out;
    }
    let mut end = hi;
    while start < end && (s[end - 1] == ' ' || s[end - 1] == '\t' || s[end - 1] == '\n' || s[end - 1] == '\r')
        invariant
            start < hi <= s@.len(),
            start <= end <= hi,
            trim_ws_end(s@, start as int, end as int) == trim_ws_end(s@, start as int, hi as int),
        decreases end,
    {
        end = end - 1;
    }
    let mut k = start;
    while k < end
        invariant
            start <= k <= end <= s@.len(),
            out@ == s@.subrange(start as int, k as int),
        decreases end - k,
    {
        out.push(s[k]);
        k = k + 1;
        assert(out@ =~= s@.subrange(start as int, k as int));
    }
    out
}

/// Returns the part of a UVL model before its constraints section (see `uvl_without_constraints`).
pub fn uvl_remove_constraints(uvl: &str) -> (r: String)
    ensures
        r@ == uvl_without_constraints(uvl@),
{
    let s = chars_of(uvl);
    let p = find_from_exec(&s, &chars_of("\nconstraints\n"), 0);
    proof {
        lemma_find_from(s@, "\nconstraints\n"@, 0);
    }
    string_of(&trimmed_exec(&s, 0, p))
}

/// Returns a UVL model with its constraints section replaced by `appendix`.
pub fn uvl_append(uvl: &str, appendix: &str) -> (r: String)
    ensures
        r@ == uvl_without_constraints(uvl@) + seq!['\n'] + appendix@,
{
    let mut out = chars_of(uvl_remove_constraints(uvl).as_str());
    out.push('\n');
    push_str_chars(&mut out, appendix);
    string_of(&out)
}

/// The UVL line of an abstract feature for a variable.
pub open spec fn uvl_var_line(v: VarV, aux: Seq<char>) -> Seq<char> {
    "\t\t\t\t\t\""@ + var_name(v, aux) + "\" {abstract}\n"@
}

/// The UVL lines of abstract features for a list of variables.
pub open spec fn uvl_var_lines(vs: Seq<VarV>, aux: Seq<char>) -> Seq<char>
    decreases vs.len(),
{
    if vs.len() == 0 {
        Seq::empty()
    } else {
        uvl_var_lines(vs.drop_last(), aux) + uvl_var_line(vs.last(), aux)
    }
}

/// A UVL group of optional abstract features for variables, below a mandatory abstract feature `label`.
pub open spec fn uvl_vars_text(label: Seq<char>, vs: Seq<VarV>, aux: Seq<char>) -> Seq<char> {
    "\t\tmandatory\n\t\t\t\""@ + label + "\" {abstract}\n"@ + "\t\t\t\toptional\n"@ + uvl_var_lines(vs, aux)
}

/// Returns a UVL group of optional abstract features for variables (see `uvl_vars_text`),
/// with the prefix `aux` for auxiliary variables.
pub fn uvl_add_vars(label: &str, vars: &Vec<Var>, aux: &Vec<char>) -> (r: String)
    ensures
        r@ == uvl_vars_text(label@, vars_view(vars@), aux@),
{
    let mut out: Vec<char> = Vec::new();
    push_uvl_vars(label, vars, aux, &mut out);
    assert(out@ =~= uvl_vars_text(label@, vars_view(vars@), aux@));
    string_of(&out)
}

/// Appends a UVL group of optional abstract features for variables (see `uvl_vars_text`).
fn push_uvl_vars(label: &str, vars: &Vec<Var>, aux: &Vec<char>, out: &mut Vec<char>)
    ensures
        final(out)@ == old(out)@ + uvl_vars_text(label@, vars_view(vars@), aux@),
{
    push_str_chars(out, "\t\tmandatory\n\t\t\t\"");
    push_str_chars(out, label);
    push_str_chars(out, "\" {abstract}\n");
    push_str_chars(out, "\t\t\t\toptional\n");
    let ghost head = out@;
    let mut i: usize = 0;
    assert(vars_view(vars@).take(0) =~= Seq::<VarV>::empty());
    assert(out@ =~= head + uvl_var_lines(vars_view(vars@).take(0), aux@));
    while i < vars.len()
        invariant
            i <= vars@.len(),
            out@ == head + uvl_var_lines(vars_view(vars@).take(i as int), aux@),
        decreases vars.len() - i,
    {
        push_str_chars(out, "\t\t\t\t\t\"");
        vars[i].push_name(aux, out);
        push_str_chars(out, "\" {abstract}\n");
        proof {
            assert(vars_view(vars@).take(i + 1).drop_last() =~= vars_view(vars@).take(i as int));
            assert(vars_view(vars@).take(i + 1).last() == vars@[i as int]@);
            assert(out@ =~= head + uvl_var_lines(vars_view(vars@).take(i + 1), aux@));
        }
        i = i + 1;
    }
    assert(vars_view(vars@).take(vars@.len() as int) =~= vars_view(vars@));
    assert(out@ =~= old(out)@ + uvl_vars_text(label@, vars_view(vars@), aux@));
}

/// The absolute value of a literal.
pub open spec fn lit_abs(l: VarId) -> int {
    if l < 0 { -(l as int) } else { l as int }
}

/// Whether all literals of the clauses refer to variables of the representation.
pub open spec fn lits_valid(vars: Seq<VarV>, cs: Seq<Seq<VarId>>) -> bool {
    forall|i: int, k: int| 0 <= i < cs.len() && 0 <= k < cs[i].len() ==> #[trigger] lit_abs(cs[i][k]) < vars.len()
}

/// The auxiliary variables of a list, in order.
pub open spec fn aux_of(vs: Seq<VarV>) -> Seq<VarV>
    decreases vs.len(),
{
    if vs.len() == 0 {
        Seq::empty()
    } else {
        aux_of(vs.drop_last()) + if vs.last() is Aux { seq![vs.last()] } else { Seq::empty() }
    }
}

/// A literal in a UVL constraint: the quoted variable name, with `!` before it if negative.
pub open spec fn uvl_lit(vars: Seq<VarV>, aux: Seq<char>, l: VarId) -> Seq<char> {
    (if l > 0 { Seq::empty() } else { seq!['!'] }) + seq!['"'] + var_name(vars[lit_abs(l)], aux) + seq!['"']
}

/// The literals of a clause as a UVL disjunction, separated by ` | `.
pub open spec fn uvl_lits(vars: Seq<VarV>, aux: Seq<char>, c: Seq<VarId>) -> Seq<char>
    decreases c.len(),
{
    if c.len() == 0 {
        Seq::empty()
    } else if c.len() == 1 {
        uvl_lit(vars, aux, c[0])
    } else {
        uvl_lits(vars, aux, c.drop_last()) + " | "@ + uvl_lit(vars, aux, c.last())
    }
}

/// The UVL constraint line of a clause (`false` for the empty clause).
pub open spec fn uvl_clause_line(vars: Seq<VarV>, aux: Seq<char>, c: Seq<VarId>) -> Seq<char> {
    seq!['\t'] + (if c.len() == 0 { "false"@ } else { uvl_lits(vars, aux, c) }) + seq!['\n']
}

/// The UVL constraint lines of a list of clauses.
pub open spec fn uvl_clause_lines(vars: Seq<VarV>, aux: Seq<char>, cs: Seq<Seq<VarId>>) -> Seq<char>
    decreases cs.len(),
{
    if cs.len() == 0 {
        Seq::empty()
    } else {
        uvl_clause_lines(vars, aux, cs.drop_last()) + uvl_clause_line(vars, aux, cs.last())
    }
}

/// The UVL text of a clause representation before trailing whitespace is removed: a group of its
/// auxiliary variables, and its clauses as constraints.
pub open spec fn uvl_raw(vars: Seq<VarV>, aux: Seq<char>, cs: Seq<Seq<VarId>>) -> Seq<char> {
    uvl_vars_text("Auxiliary Variables"@, aux_of(vars.subrange(1, vars.len() as int)), aux) + seq!['\n']
        + "\nconstraints\n"@ + uvl_clause_lines(vars, aux, cs)
}

/// The UVL text of a clause representation, without trailing whitespace.
pub open spec fn uvl_text(vars: Seq<VarV>, aux: Seq<char>, cs: Seq<Seq<VarId>>) -> Seq<char> {
    let raw = uvl_raw(vars, aux, cs);
    raw.subrange(0, trim_ws_end(raw, 0, raw.len() as int))
}

/// Returns the auxiliary variables among the variables of a clause representation other than the first.
fn aux_vars(vars: &Vec<Var>) -> (r: Vec<Var>)
    requires
        vars@.len() >= 1,
    ensures
        vars_view(r@) == aux_of(vars_view(vars@).subrange(1, vars@.len() as int)),
{
    let ghost vs = vars_view(vars@).subrange(1, vars@.len() as int);
    let mut r: Vec<Var> = Vec::new();
    let mut i: usize = 1;
    assert(vs.take(0) =~= Seq::<VarV>::empty());
    while i < vars.len()
        invariant
            1 <= i <= vars@.len(),
            vs == vars_view(vars@).subrange(1, vars@.len() as int),
            vars_view(r@) == aux_of(vs.take(i - 1)),
        decreases vars.len() - i,
    {
        let ghost before = r@;
        proof {
            assert(vs.take(i as int).drop_last() =~= vs.take(i - 1));
            assert(vs.take(i as int).last() == vars@[i as int]@);
        }
        match &vars[i] {
            Var::Aux(n) => {
                r.push(Var::Aux(*n));
                assert(vars_view(r@) =~= vars_view(before) + seq![vars@[i as int]@]);
            },
            Var::Named(_) => {},
        }
        proof {
            assert(vars_view(r@) =~= aux_of(vs.take(i as int)));
        }
        i = i + 1;
    }
    assert(vs.take(vars@.len() - 1) =~= vs);
    r
}

/// Returns the UVL text of a clause representation (see `uvl_text`), with the prefix `aux` for
/// auxiliary variables.
pub fn to_uvl_string(clauses: &Clauses, aux: &Vec<char>) -> (r: String)
    requires
        clauses.vars@.len() >= 1,
        lits_valid(vars_view(clauses.vars@), clauses_view(clauses.clauses@)),
    ensures
        r@ == uvl_text(vars_view(clauses.vars@), aux@, clauses_view(clauses.clauses@)),
{
    let ghost vv = vars_view(clauses.vars@);
    let ghost cv = clauses_view(clauses.clauses@);
    let mut out: Vec<char> = Vec::new();
    let label = "Auxiliary Variables";
    let avs = aux_vars(&clauses.vars);
    push_uvl_vars(label, &avs, aux, &mut out);
    out.push('\n');
    push_str_chars(&mut out, "\nconstraints\n");
    let ghost head = out@;
    let mut i: usize = 0;
    assert(cv.take(0) =~= Seq::<Seq<VarId>>::empty());
    assert(out@ =~= head + uvl_clause_lines(vv, aux@, cv.take(0)));
    while i < clauses.clauses.len()
        invariant
            i <= clauses.clauses@.len(),
            vv == vars_view(clauses.vars@),
            cv == clauses_view(clauses.clauses@),
            cv.len() == clauses.clauses@.len(),
            lits_valid(vv, cv),
            out@ == head + uvl_clause_lines(vv, aux@, cv.take(i as int)),
        decreases clauses.clauses.len() - i,
    {
        let c = &clauses.clauses[i];
        let ghost line_start = out@;
        out.push('\t');
        if c.len() == 0 {
            push_str_chars(&mut out, "false");
        } else {
            let mut k: usize = 0;
            let ghost lits_start = out@;
            assert(out@ =~= lits_start + uvl_lits(vv, aux@, c@.take(0)));
            while k < c.len()
                invariant
                    i < clauses.clauses@.len(),
                    c@ == cv[i as int],
                    cv.len() == clauses.clauses@.len(),
                    vv == vars_view(clauses.vars@),
                    lits_valid(vv, cv),
                    k <= c@.len(),
                    out@ == lits_start + uvl_lits(vv, aux@, c@.take(k as int)),
                decreases c.len() - k,
            {
                let l = c[k];
                if k > 0 {
                    push_str_chars(&mut out, " | ");
                }
                if l <= 0 {
                    out.push('!');
                }
                out.push('"');
                assert(lit_abs(cv[i as int][k as int]) < vv.len());
                let idx: usize = if l < 0 { (-(l as i64)) as usize } else { l as usize };
                clauses.vars[idx].push_name(aux, &mut out);
                out.push('"');
                proof {
                    assert(c@.take(k + 1).drop_last() =~= c@.take(k as int));
                    assert(c@.take(k + 1).last() == l);
                    if k == 0 {
                        assert(c@.take(1)[0] == l);
                    }
                    assert(vv[idx as int] == clauses.vars@[idx as int]@);
                    assert(out@ =~= lits_start + uvl_lits(vv, aux@, c@.take(k + 1)));
                }
                k = k + 1;
            }
            assert(c@.take(c@.len() as int) =~= c@);
        }
        out.push('\n');
        proof {
            assert(cv.take(i + 1).drop_last() =~= cv.take(i as int));
            assert(cv.take(i + 1).last() == c@);
            assert(out@ =~= head + uvl_clause_lines(vv, aux@, cv.take(i + 1)));
        }
        i = i + 1;
    }
    proof {
        assert(cv.take(cv.len() as int) =~= cv);
        assert(out@ =~= uvl_raw(vv, aux@, cv));
    }
    let ghost raw = out@;
    while out.len() > 0 && (out[out.len() - 1] == ' ' || out[out.len() - 1] == '\t' || out[out.len() - 1] == '\n' || out[out.len() - 1] == '\r')
        invariant
            out@.len() <= raw.len(),
            out@ == raw.subrange(0, out@.len() as int),
            trim_ws_end(raw, 0, out@.len() as int) == trim_ws_end(raw, 0, raw.len() as int),
        decreases out.len(),
    {
        out.pop();
        assert(out@ =~= raw.subrange(0, out@.len() as int));
    }
    string_of(&out)
}

/// A literal in an XML constraint: `<var>` with the variable's name, within `<not>` if negative.
pub open spec fn xml_lit(vars: Seq<VarV>, aux: Seq<char>, l: VarId) -> Seq<char> {
    (if l > 0 { Seq::empty() } else { "<not>"@ }) + "<var>"@ + var_name(vars[lit_abs(l)], aux) + "</var>"@
        + (if l > 0 { Seq::empty() } else { "</not>"@ })
}

/// The literals of a clause in XML.
pub open spec fn xml_lits(vars: Seq<VarV>, aux: Seq<char>, c: Seq<VarId>) -> Seq<char>
    decreases c.len(),
{
    if c.len() == 0 {
        Seq::empty()
    } else {
        xml_lits(vars, aux, c.drop_last()) + xml_lit(vars, aux, c.last())
    }
}

/// The XML rules of a list of clauses, each a disjunction.
pub open spec fn xml_rules(vars: Seq<VarV>, aux: Seq<char>, cs: Seq<Seq<VarId>>) -> Seq<char>
    decreases cs.len(),
{
    if cs.len() == 0 {
        Seq::empty()
    } else {
        xml_rules(vars, aux, cs.drop_last()) + "\t\t<rule><disj>"@ + xml_lits(vars, aux, cs.last()) + "</disj></rule>\n"@
    }
}

/// The XML constraints of a clause representation.
pub open spec fn xml_text(vars: Seq<VarV>, aux: Seq<char>, cs: Seq<Seq<VarId>>) -> Seq<char> {
    "\t<constraints>\n"@ + xml_rules(vars, aux, cs) + "\t</constraints>"@
}

/// Returns the XML constraints of a clause representation (see `xml_text`), with the prefix `aux`
/// for auxiliary variables.
pub fn to_xml_string(clauses: &Clauses, aux: &Vec<char>) -> (r: String)
    requires
        lits_valid(vars_view(clauses.vars@), clauses_view(clauses.clauses@)),
    ensures
        r@ == xml_text(vars_view(clauses.vars@), aux@, clauses_view(clauses.clauses@)),
{
    let ghost vv = vars_view(clauses.vars@);
    let ghost cv = clauses_view(clauses.clauses@);
    let mut out: Vec<char> = Vec::new();
    push_str_chars(&mut out, "\t<constraints>\n");
    let ghost head = out@;
    let mut i: usize = 0;
    assert(cv.take(0) =~= Seq::<Seq<VarId>>::empty());
    assert(out@ =~= head + xml_rules(vv, aux@, cv.take(0)));
    while i < clauses.clauses.len()
        invariant
            i <= clauses.clauses@.len(),
            vv == vars_view(clauses.vars@),
            cv == clauses_view(clauses.clauses@),
            cv.len() == clauses.clauses@.len(),
            lits_valid(vv, cv),
            out@ == head + xml_rules(vv, aux@, cv.take(i as int)),
        decreases clauses.clauses.len() - i,
    {
        let c = &clauses.clauses[i];
        push_str_chars(&mut out, "\t\t<rule><disj>");
        let mut k: usize = 0;
        let ghost lits_start = out@;
        assert(c@.take(0) =~= Seq::<VarId>::empty());
        assert(out@ =~= lits_start + xml_lits(vv, aux@, c@.take(0)));
        while k < c.len()
            invariant
                i < clauses.clauses@.len(),
                c@ == cv[i as int],
                cv.len() == clauses.clauses@.len(),
                vv == vars_view(clauses.vars@),
                lits_valid(vv, cv),
                k <= c@.len(),
                out@ == lits_start + xml_lits(vv, aux@, c@.take(k as int)),
            decreases c.len() - k,
        {
            let l = c[k];
            if l <= 0 {
                push_str_chars(&mut out, "<not>");
            }
            push_str_chars(&mut out, "<var>");
            assert(lit_abs(cv[i as int][k as int]) < vv.len());
            let idx: usize = if l < 0 { (-(l as i64)) as usize } else { l as usize };
            clauses.vars[idx].push_name(aux, &mut out);
            push_str_chars(&mut out, "</var>");
            if l <= 0 {
                push_str_chars(&mut out, "</not>");
            }
            proof {
                assert(c@.take(k + 1).drop_last() =~= c@.take(k as int));
                assert(c@.take(k + 1).last() == l);
                assert(vv[idx as int] == clauses.vars@[idx as int]@);
                assert(out@ =~= lits_start + xml_lits(vv, aux@, c@.take(k + 1)));
            }
            k = k + 1;
        }
        assert(c@.take(c@.len() as int) =~= c@);
        push_str_chars(&mut out, "</disj></rule>\n");
        proof {
            assert(cv.take(i + 1).drop_last() =~= cv.take(i as int));
            assert(cv.take(i + 1).last() == c@);
            assert(out@ =~= head + xml_rules(vv, aux@, cv.take(i + 1)));
        }
        i = i + 1;
    }
    assert(cv.take(cv.len() as int) =~= cv);
    push_str_chars(&mut out, "\t</constraints>");
    string_of(&out)
}

/// The name of a named variable (empty for an auxiliary one).
pub open spec fn name_of(v: VarV) -> Seq<char> {
    match v {
        VarV::Named(n) => n,
        VarV::Aux(_) => Seq::empty(),
    }
}

/// The FeatureIDE names (see `escaped`) of the variables `ids` of an arena.
pub open spec fn io_names(vv: Seq<VarV>, ids: Seq<VarId>) -> Seq<Seq<char>> {
    ids.map_values(|v: VarId| escaped(name_of(vv[v as int])))
}

/// Returns the names, as FeatureIDE reads them (see `name_to_io`), of the variables that a slice
/// with FeatureIDE keeps, in ascending order of their identifiers.
///
/// The variables must be named variables of the arena.
pub fn slice_var_names(var_ids: &HashSet<VarId>, arena: &Arena) -> (r: Vec<String>)
    requires
        arena.wf(),
        forall|v: VarId| #[trigger] var_ids@.contains(v) ==> 0 < v < arena.vars@.len() && arena.vv()[v as int] is Named,
    ensures
        strings_view(r@) == io_names(arena.vv(), selected_ids(|v: VarId| var_ids@.contains(v), arena.vars@.len() as int)),
{
    let empty: HashSet<VarId> = HashSet::new();
    let vars = arena.filter_vars(var_ids, true, &empty);
    let ghost ids = vars@.map_values(|p: (VarId, Var)| p.0);
    proof {
        crate::formula::lemma_selected_ids_congruent(
            |v: VarId| var_ids@.contains(v) == true && !empty@.contains(v),
            |v: VarId| var_ids@.contains(v),
            arena.vars@.len() as int,
        );
        crate::formula::lemma_selected_ids_sound(|v: VarId| var_ids@.contains(v), arena.vars@.len() as int);
    }
    let mut r: Vec<String> = Vec::new();
    let mut i: usize = 0;
    while i < vars.len()
        invariant
            i <= vars@.len(),
            ids == vars@.map_values(|p: (VarId, Var)| p.0),
            forall|k: int| 0 <= k < vars@.len() ==> 0 < (#[trigger] vars@[k]).0 < arena.vars@.len() && vars@[k].1@ == arena.vv()[vars@[k].0 as int],
            strings_view(r@) == io_names(arena.vv(), ids.take(i as int)),
            forall|k: int| 0 <= k < ids.len() ==> var_ids@.contains(#[trigger] ids[k]),
            forall|v: VarId| #[trigger] var_ids@.contains(v) ==> 0 < v < arena.vars@.len() && arena.vv()[v as int] is Named,
        decreases vars.len() - i,
    {
        let name = match &vars[i].1 {
            Var::Named(n) => name_to_io(n.as_str()),
            Var::Aux(_) => String::new(),
        };
        proof {
            assert(ids[i as int] == vars@[i as int].0);
            assert(vars@[i as int].1@ == arena.vv()[ids[i as int] as int]);
            assert(var_ids@.contains(ids[i as int]));
            assert(name@ == escaped(name_of(arena.vv()[ids[i as int] as int])));
        }
        let ghost before = strings_view(r@);
        r.push(name);
        proof {
            assert(strings_view(r@) =~= before.push(name@));
            assert(ids.take(i + 1) =~= ids.take(i as int).push(ids[i as int]));
            assert(io_names(arena.vv(), ids.take(i + 1)) =~= io_names(arena.vv(), ids.take(i as int)).push(escaped(name_of(arena.vv()[ids[i as int] as int]))));
            assert(strings_view(r@) =~= io_names(arena.vv(), ids.take(i + 1)));
        }
        i = i + 1;
    }
    assert(ids.take(vars@.len() as int) =~= ids);
    r
}

impl File {
    /// Parses the .cnf file that a slice with FeatureIDE returns (names in FeatureIDE's form,
    /// see `name_from_io`) into an arena; the formula's variables are the given ones, those the
    /// slice keeps.
    pub fn parse_slice(&self, var_ids: &HashSet<VarId>, arena: &mut Arena) -> (r: Result<Formula, ParseError>)
        requires
            old(arena).wf(),
        ensures
            final(arena).wf(),
            extends(final(arena).ev(), old(arena).ev()),
            extends(final(arena).vv(), old(arena).vv()),
            exists|g: Result<Formula, ParseError>| #[trigger] cnf_parsed(old(arena), final(arena), unescaped(self.contents@), g)
                && match g {
                    Ok(f0) => r matches Ok(f) && f.root_id == f0.root_id && f.sub_var_ids@ == var_ids@ && f.file is Some,
                    Err(e) => r == Err::<Formula, ParseError>(e),
                },
    {
        let contents = name_from_io(self.contents.as_str());
        let name = string_of(&chars_of("-.cnf"));
        let g = CnfFormulaParser.parse_into(File::new(name, contents), arena);
        assert(cnf_parsed(old(arena), arena, unescaped(self.contents@), g));
        match g {
            Ok(f0) => {
                let mut f = f0;
                f.sub_var_ids = crate::varset::copy_set(var_ids);
                Ok(f)
            },
            Err(e) => Err(e),
        }
    }
}

/// The part of an error message before the first occurrence of a marker of nested error details
/// (`: Os {` first, else `: Custom {`), and the details (after `: `); the whole message and no
/// details if no marker occurs.
pub open spec fn panic_parts(m: Seq<char>) -> (Seq<char>, Option<Seq<char>>) {
    let i = find_from(m, ": Os {"@, 0);
    let j = find_from(m, ": Custom {"@, 0);
    if i < m.len() {
        (m.subrange(0, i), Some(m.subrange(i + 2, m.len() as int)))
    } else if j < m.len() {
        (m.subrange(0, j), Some(m.subrange(j + 2, m.len() as int)))
    } else {
        (m, None)
    }
}

/// Returns `s[lo..hi]`.
fn chars_between(s: &Vec<char>, lo: usize, hi: usize) -> (r: String)
    requires
        lo <= hi <= s@.len(),
    ensures
        r@ == s@.subrange(lo as int, hi as int),
{
    let mut out: Vec<char> = Vec::new();
    let mut k = lo;
    while k < hi
        invariant
            lo <= k <= hi <= s@.len(),
            out@ == s@.subrange(lo as int, k as int),
        decreases hi - k,
    {
        out.push(s[k]);
        k = k + 1;
        assert(out@ =~= s@.subrange(lo as int, k as int));
    }
    string_of(&out)
}

/// Splits an error message into its message and its nested error details (see `panic_parts`).
pub fn format_panic_message(message: &str) -> (r: (String, Option<String>))
    ensures
        r.0@ == panic_parts(message@).0,
        match panic_parts(message@).1 {
            Some(d) => r.1 matches Some(x) && x@ == d,
            None => r.1 is None,
        },
{
    let m = chars_of(message);
    let os = chars_of(": Os {");
    let custom = chars_of(": Custom {");
    let i = find_from_exec(&m, &os, 0);
    let j = find_from_exec(&m, &custom, 0);
    proof {
        lemma_find_from(m@, os@, 0);
        lemma_find_from(m@, custom@, 0);
        reveal_strlit(": Os {");
        reveal_strlit(": Custom {");
    }
    if i < m.len() {
        (chars_between(&m, 0, i), Some(chars_between(&m, i + 2, m.len())))
    } else if j < m.len() {
        (chars_between(&m, 0, j), Some(chars_between(&m, j + 2, m.len())))
    } else {
        (string_of(&m), None)
    }
}

} // verus!
