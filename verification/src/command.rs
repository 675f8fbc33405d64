//! Command lines of external tools, as they are logged.

use vstd::prelude::*;
use crate::shell::strings_view;
use crate::text::{chars_of, push_all, string_of};

verus! {

/// Whether a character needs no quoting in a shell: an ASCII letter or digit, or one of `_@%+=:,./-`.
pub open spec fn shell_safe_char(c: char) -> bool {
    ('a' <= c && c <= 'z') || ('A' <= c && c <= 'Z') || ('0' <= c && c <= '9')
        || c == '_' || c == '@' || c == '%' || c == '+' || c == '=' || c == ':' || c == ','
        || c == '.' || c == '/' || c == '-'
}

/// The text `s` with each single quote replaced by `'\''`.
pub open spec fn quotes_escaped(s: Seq<char>) -> Seq<char>
    decreases s.len(),
{
    if s.len() == 0 {
        Seq::empty()
    } else {
        quotes_escaped(s.drop_last()) + if s.last() == '\'' { seq!['\'', '\\', '\'', '\''] } else { seq![s.last()] }
    }
}

/// A word as a shell reads it back: unchanged if it is non-empty and all its characters are safe,
/// otherwise in single quotes (with single quotes inside escaped).
pub open spec fn shell_word(s: Seq<char>) -> Seq<char> {
    if s.len() > 0 && forall|i: int| 0 <= i < s.len() ==> shell_safe_char(#[trigger] s[i]) {
        s
    } else {
        seq!['\''] + quotes_escaped(s) + seq!['\'']
    }
}

/// The words of a command line, each preceded by a space.
pub open spec fn shell_args(args: Seq<Seq<char>>) -> Seq<char>
    decreases args.len(),
{
    if args.len() == 0 {
        Seq::empty()
    } else {
        shell_args(args.drop_last()) + seq![' '] + shell_word(args.last())
    }
}

/// Returns whether a character needs no quoting in a shell (see `shell_safe_char`).
fn is_shell_safe(c: char) -> (r: bool)
    ensures
        r == shell_safe_char(c),
{
    ('a' <= c && c <= 'z') || ('A' <= c && c <= 'Z') || ('0' <= c && c <= '9')
        || c == '_' || c == '@' || c == '%' || c == '+' || c == '=' || c == ':' || c == ','
        || c == '.' || c == '/' || c == '-'
}

/// Returns a word as a shell reads it back (see `shell_word`).
pub fn shell_escape(s: &str) -> (r: String)
    ensures
        r@ == shell_word(s@),
{
    let cs = chars_of(s);
    let mut safe = cs.len() > 0;
    let mut i: usize = 0;
    while i < cs.len()
        invariant
            i <= cs@.len(),
            cs@ == s@,
            safe == (cs@.len() > 0 && forall|k: int| 0 <= k < i ==> shell_safe_char(#[trigger] cs@[k])),
        decreases cs.len() - i,
    {
        if !is_shell_safe(cs[i]) {
            safe = false;
        }
        i = i + 1;
    }
    if safe {
        return string_of(&cs);
    }
    let mut out: Vec<char> = Vec::new();
    out.push('\'');
    let mut j: usize = 0;
    while j < cs.len()
        invariant
            j <= cs@.len(),
            out@ == seq!['\''] + quotes_escaped(cs@.take(j as int)),
        decreases cs.len() - j,
    {
        let c = cs[j];
        if c == '\'' {
            out.push('\'');
            out.push('\\');
            out.push('\'');
            out.push('\'');
        } else {
            out.push(c);
        }
        proof {
            assert(cs@.take(j + 1).drop_last() =~= cs@.take(j as int));
        }
        j = j + 1;
    }
    out.push('\'');
    assert(cs@.take(cs@.len() as int) =~= cs@);
    string_of(&out)
}

/// Returns the command line of a program and its arguments, each quoted as a shell needs it
/// (see `shell_word`) and separated by spaces.
pub fn command_line(program: &str, args: &Vec<String>) -> (r: String)
    ensures
        r@ == shell_word(program@) + shell_args(strings_view(args@)),
{
    let mut out: Vec<char> = chars_of(shell_escape(program).as_str());
    let ghost start = out@;
    let mut i: usize = 0;
    while i < args.len()
        invariant
            i <= args@.len(),
            out@ == start + shell_args(strings_view(args@).take(i as int)),
        decreases args.len() - i,
    {
        out.push(' ');
        let w = chars_of(shell_escape(args[i].as_str()).as_str());
        push_all(&mut out, &w);
        proof {
            let sv = strings_view(args@);
            assert(sv.take(i + 1).drop_last() =~= sv.take(i as int));
            assert(sv.take(i + 1).last() == args@[i as int]@);
            assert(out@ =~= start + shell_args(sv.take(i + 1)));
        }
        i = i + 1;
    }
    assert(strings_view(args@).take(args@.len() as int) =~= strings_view(args@));
    string_of(&out)
}

} // verus!
