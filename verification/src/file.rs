//! Feature-model formula files.

use vstd::prelude::*;
use crate::text::{chars_of, string_of};

verus! {

/// A feature-model formula file: its name and its contents.
#[derive(Debug)]
pub struct File {
    /// The name of the file (a path, or `-` / `-.<extension>` for standard input).
    pub name: String,
    /// The contents of the file.
    pub contents: String,
}

impl Clone for File {
    fn clone(&self) -> (r: Self)
        ensures
            r.name@ == self.name@,
            r.contents@ == self.contents@,
    {
        File { name: self.name.clone(), contents: self.contents.clone() }
    }
}

/// The index just after the last slash in `s` before position `end` (0 if there is none).
pub open spec fn component_start(s: Seq<char>, end: int) -> int
    decreases end,
{
    if end <= 0 {
        0
    } else if s[end - 1] == '/' {
        end
    } else {
        component_start(s, end - 1)
    }
}

/// The position of the last dot in `s[from..end]`, if any.
pub open spec fn last_dot(s: Seq<char>, from: int, end: int) -> Option<int>
    decreases end - from,
{
    if end <= from {
        None
    } else if s[end - 1] == '.' {
        Some(end - 1)
    } else {
        last_dot(s, from, end - 1)
    }
}

/// The length of a name without its trailing slashes.
pub open spec fn trimmed_end(s: Seq<char>, end: int) -> int
    decreases end,
{
    if end > 0 && s[end - 1] == '/' {
        trimmed_end(s, end - 1)
    } else {
        end
    }
}

/// The extension of a file name: the part of its last path component after the last dot,
/// provided that this dot is not the first character of the component and the component is not `..`.
pub open spec fn extension_spec(name: Seq<char>) -> Option<Seq<char>> {
    let end = trimmed_end(name, name.len() as int);
    let start = component_start(name, end);
    let comp = name.subrange(start, end);
    if comp == seq!['.', '.'] {
        None
    } else {
        match last_dot(name, start, end) {
            Some(d) => if d == start { None } else { Some(name.subrange(d + 1, end)) },
            None => None,
        }
    }
}

impl File {
    /// Creates a new file.
    pub fn new(name: String, contents: String) -> (r: Self)
        ensures
            r.name@ == name@,
            r.contents@ == contents@,
    {
        File { name, contents }
    }

    /// Returns the extension of this file, if any (see `extension_spec`).
    pub fn extension(&self) -> (r: Option<String>)
        ensures
            r matches Some(e) ==> extension_spec(self.name@) == Some(e@),
            r is None ==> extension_spec(self.name@) is None,
    {
        let s = chars_of(self.name.as_str());
        let mut end: usize = s.len();
        while end > 0 && s[end - 1] == '/'
            invariant
                end <= s.len(),
                trimmed_end(s@, end as int) == trimmed_end(s@, s@.len() as int),
            decreases end,
        {
            end = end - 1;
        }
        let mut start: usize = end;
        while start > 0 && s[start - 1] != '/'
            invariant
                start <= end <= s.len(),
                component_start(s@, start as int) == component_start(s@, end as int),
            decreases start,
        {
            start = start - 1;
        }
        if end - start == 2 && s[start] == '.' && s[start + 1] == '.' {
            assert(s@.subrange(start as int, end as int) =~= seq!['.', '.']);
            return None;
        }
        proof {
            if s@.subrange(start as int, end as int) == seq!['.', '.'] {
                assert(s@.subrange(start as int, end as int).len() == 2);
                assert(end - start == 2);
                assert(s@.subrange(start as int, end as int)[0] == s@[start as int]);
                assert(s@.subrange(start as int, end as int)[1] == s@[start + 1]);
            }
        }
        let mut d: usize = end;
        while d > start && s[d - 1] != '.'
            invariant
                start <= d <= end <= s.len(),
                last_dot(s@, start as int, d as int) == last_dot(s@, start as int, end as int),
            decreases d,
        {
            d = d - 1;
        }
        if d == start || d - 1 == start {
            return None;
        }
        let mut ext: Vec<char> = Vec::new();
        let mut i: usize = d;
        while i < end
            invariant
                d <= i <= end <= s.len(),
                ext@ == s@.subrange(d as int, i as int),
            decreases end - i,
        {
            ext.push(s[i]);
            i = i + 1;
        }
        Some(string_of(&ext))
    }
}

} // verus!
