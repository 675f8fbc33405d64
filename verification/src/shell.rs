//! Options and decisions of the command-line shell.

use std::collections::HashSet;
use vstd::prelude::*;
use crate::arena::Arena;
use crate::formula::Formula;
use crate::text::{chars_of, push_str_chars, str_eq, string_of};
use crate::var::{VarId, VarV};
use crate::varset;

verus! {

broadcast use vstd::std_specs::hash::group_hash_axioms;

/// Supported transformations.
#[derive(Clone, Copy, Debug, PartialEq, Eq, Structural)]
pub enum Transform {
    /// Canonicalization (flattening and simplification).
    Canon,
    /// Negation normal form.
    Nnf,
    /// Conjunctive normal form by distribution.
    CnfDist,
    /// Conjunctive normal form by the Tseitin transformation.
    CnfTseitin,
}

/// Supported d4 projection modes for projected model counting.
#[derive(Clone, Copy, Debug, PartialEq, Eq, Structural)]
pub enum D4ProjectionMode {
    /// Model counting (d4), which also supports projected model counting.
    Counting,
    /// Projected d-DNNF compilation (pd4).
    ProjDdnnfCompiler,
    /// Projected model counting (projMC).
    ProjMc,
}

impl Default for D4ProjectionMode {
    fn default() -> (r: Self)
        ensures
            r == D4ProjectionMode::Counting,
    {
        D4ProjectionMode::Counting
    }
}

/// Options of external tools used for SAT solving, model counting, etc.
#[derive(Debug)]
pub struct ToolOptions {
    /// Path to the satisfiability solver kissat.
    pub kissat_path: String,
    /// Path to a satisfiability solver that takes a .cnf file and outputs "s (UN)SATISFIABLE".
    pub sat_path: Option<String>,
    /// Path to the model counter d4.
    pub d4_path: String,
    /// d4 mode used when performing projected model counting.
    pub d4_projection_mode: D4ProjectionMode,
    /// Path to a model counter that takes a .cnf file and outputs "s <model count>".
    pub sharp_sat_path: Option<String>,
    /// Timeout in seconds for model counting (0 = no timeout).
    pub sharp_sat_timeout: u64,
    /// Path to the AllSAT solver bc_minisat_all.
    pub bc_minisat_all_path: String,
    /// Path to the FeatureIDE I/O interface.
    pub io_path: String,
    /// Force parsing all input files through the FeatureIDE I/O interface.
    pub force_io: bool,
}

impl Default for ToolOptions {
    fn default() -> (r: Self)
        ensures
            r.kissat_path@ == Seq::<char>::empty(),
            r.sat_path is None,
            r.d4_path@ == Seq::<char>::empty(),
            r.d4_projection_mode == D4ProjectionMode::Counting,
            r.sharp_sat_path is None,
            r.sharp_sat_timeout == 0,
            r.bc_minisat_all_path@ == Seq::<char>::empty(),
            r.io_path@ == Seq::<char>::empty(),
            !r.force_io,
    {
        ToolOptions {
            kissat_path: String::new(),
            sat_path: None,
            d4_path: String::new(),
            d4_projection_mode: D4ProjectionMode::Counting,
            sharp_sat_path: None,
            sharp_sat_timeout: 0,
            bc_minisat_all_path: String::new(),
            io_path: String::new(),
            force_io: false,
        }
    }
}

/// Output formatting options.
#[derive(Debug)]
pub struct OutputOptions {
    /// Print expression identifiers, useful when debugging.
    pub print_ids: bool,
    /// Prefix for auxiliary variables introduced by the Tseitin transformation.
    pub aux_prefix: String,
    /// Disable optional informational logs.
    pub quiet: bool,
}

impl Default for OutputOptions {
    fn default() -> (r: Self)
        ensures
            !r.print_ids,
            r.aux_prefix@ == Seq::<char>::empty(),
            !r.quiet,
    {
        OutputOptions { print_ids: false, aux_prefix: String::new(), quiet: false }
    }
}

/// All configuration options.
#[derive(Debug)]
pub struct Options {
    /// Options of external tools.
    pub tool: ToolOptions,
    /// Output formatting options.
    pub output: OutputOptions,
}

impl Default for Options {
    fn default() -> (r: Self)
        ensures
            r.tool.kissat_path@ == Seq::<char>::empty(),
            r.tool.sat_path is None,
            r.tool.d4_path@ == Seq::<char>::empty(),
            r.tool.d4_projection_mode == D4ProjectionMode::Counting,
            r.tool.sharp_sat_path is None,
            r.tool.sharp_sat_timeout == 0,
            r.tool.bc_minisat_all_path@ == Seq::<char>::empty(),
            r.tool.io_path@ == Seq::<char>::empty(),
            !r.tool.force_io,
            !r.output.print_ids,
            r.output.aux_prefix@ == Seq::<char>::empty(),
            !r.output.quiet,
    {
        Options { tool: ToolOptions::default(), output: OutputOptions::default() }
    }
}

/// Returns the options in effect when none were set explicitly: the defaults of every option.
pub fn options() -> (r: Options)
    ensures
        r.tool.kissat_path@ == Seq::<char>::empty(),
        r.tool.sat_path is None,
        r.tool.d4_path@ == Seq::<char>::empty(),
        r.tool.d4_projection_mode == D4ProjectionMode::Counting,
        r.tool.sharp_sat_path is None,
        r.tool.sharp_sat_timeout == 0,
        r.tool.bc_minisat_all_path@ == Seq::<char>::empty(),
        r.tool.io_path@ == Seq::<char>::empty(),
        !r.tool.force_io,
        !r.output.print_ids,
        r.output.aux_prefix@ == Seq::<char>::empty(),
        !r.output.quiet,
{
    Options::default()
}

/// Options for projection-aware actions (`print-clauses`, `count`).
#[derive(Debug)]
pub struct ProjectionArgs {
    /// Variables to project to.
    pub project: Vec<String>,
    /// Variables to slice away.
    pub slice: Vec<String>,
    /// Path to a newline-separated file of variable names to project to.
    pub project_file: Option<String>,
    /// Path to a newline-separated file of variable names to slice away.
    pub slice_file: Option<String>,
}

impl Default for ProjectionArgs {
    fn default() -> (r: Self)
        ensures
            r.project@.len() == 0,
            r.slice@.len() == 0,
            r.project_file is None,
            r.slice_file is None,
    {
        ProjectionArgs { project: Vec::new(), slice: Vec::new(), project_file: None, slice_file: None }
    }
}

/// Options for `count-inc`.
#[derive(Debug)]
pub struct CountIncArgs {
    /// Optional known model count for the left formula.
    pub left_model_count: Option<String>,
}

/// Diff mode for one side: slice to the common variables, or fix all foreign variables to a
/// default value, with optional files naming variables fixed to true or to false instead.
#[derive(Debug)]
pub enum DiffMode {
    /// Slice both formulas to their common variables.
    Slice,
    /// Fix foreign variables.
    Fixed {
        /// The value of foreign variables not named in a file.
        default: bool,
        /// A file naming variables fixed to true.
        true_file: Option<String>,
        /// A file naming variables fixed to false.
        false_file: Option<String>,
    },
}

/// What a diff mode holds, as plain values.
pub enum DiffModeV {
    /// Slicing.
    Slice,
    /// Fixing, with the default value and the names of the two files.
    Fixed(bool, Option<Seq<char>>, Option<Seq<char>>),
}

/// The plain value of an optional string.
pub open spec fn opt_view(o: Option<String>) -> Option<Seq<char>> {
    match o {
        Some(s) => Some(s@),
        None => None,
    }
}

impl DiffMode {
    /// What this diff mode holds.
    pub open spec fn view_mode(&self) -> DiffModeV {
        match self {
            DiffMode::Slice => DiffModeV::Slice,
            DiffMode::Fixed { default, true_file, false_file } => DiffModeV::Fixed(*default, opt_view(*true_file), opt_view(*false_file)),
        }
    }
}

/// The position of the first `c` in `s` at or after `i`, if any.
pub open spec fn find_char(s: Seq<char>, c: char, i: int) -> Option<int>
    decreases s.len() - i,
{
    if !(0 <= i < s.len()) {
        None
    } else if s[i] == c {
        Some(i)
    } else {
        find_char(s, c, i + 1)
    }
}

/// A file name part of a diff mode: none if empty.
pub open spec fn file_part(p: Seq<char>) -> Option<Seq<char>> {
    if p.len() == 0 { None } else { Some(p) }
}

/// The word `true`.
pub open spec fn word_true() -> Seq<char> {
    seq!['t', 'r', 'u', 'e']
}

/// The word `false`.
pub open spec fn word_false() -> Seq<char> {
    seq!['f', 'a', 'l', 's', 'e']
}

/// The word `slice`.
pub open spec fn word_slice() -> Seq<char> {
    seq!['s', 'l', 'i', 'c', 'e']
}

/// The diff mode a text describes: `slice`, `true`, `false`, or `<default>,<true-file>,<false-file>`
/// (with `<default>` being `true` or `false`; an empty file name means no file).
pub open spec fn diff_mode_spec(s: Seq<char>) -> Option<DiffModeV> {
    if s == word_slice() {
        Some(DiffModeV::Slice)
    } else if s == word_true() {
        Some(DiffModeV::Fixed(true, None, None))
    } else if s == word_false() {
        Some(DiffModeV::Fixed(false, None, None))
    } else {
        match find_char(s, ',', 0) {
            None => None,
            Some(c1) => match find_char(s, ',', c1 + 1) {
                None => None,
                Some(c2) => {
                    let head = s.subrange(0, c1);
                    if head == word_true() || head == word_false() {
                        Some(DiffModeV::Fixed(head == word_true(), file_part(s.subrange(c1 + 1, c2)), file_part(s.subrange(c2 + 1, s.len() as int))))
                    } else {
                        None
                    }
                },
            },
        }
    }
}

/// The message for a text that is no diff mode.
pub open spec fn diff_mode_error(s: Seq<char>) -> Seq<char> {
    "invalid diff mode '"@ + s + "'; expected 'slice', 'true', 'false', 'true,<true-file>,<false-file>', or 'false,<true-file>,<false-file>'"@
}

proof fn lemma_find_char(s: Seq<char>, c: char, i: int)
    requires
        0 <= i,
    ensures
        find_char(s, c, i) matches Some(k) ==> i <= k < s.len() && s[k] == c && forall|j: int| i <= j < k ==> s[j] != c,
        find_char(s, c, i) is None ==> forall|j: int| i <= j < s.len() ==> s[j] != c,
    decreases s.len() - i,
{
    if 0 <= i < s.len() && s[i] != c {
        lemma_find_char(s, c, i + 1);
    }
}

/// Returns the position of the first `c` in `s` at or after `i` (see `find_char`).
fn find_char_exec(s: &Vec<char>, c: char, i: usize) -> (r: Option<usize>)
    ensures
        match find_char(s@, c, i as int) {
            Some(k) => r == Some(k as usize),
            None => r is None,
        },
{
    let mut k = i;
    if k >= s.len() {
        return None;
    }
    while k < s.len()
        invariant
            i <= k <= s@.len(),
            find_char(s@, c, k as int) == find_char(s@, c, i as int),
        decreases s.len() - k,
    {
        if s[k] == c {
            return Some(k);
        }
        k = k + 1;
    }
    None
}

/// Returns the characters `s[lo..hi]` as a string.
fn substring(s: &Vec<char>, lo: usize, hi: usize) -> (r: String)
    requires
        lo <= hi <= s@.len(),
    ensures
        r@ == s@.subrange(lo as int, hi as int),
{
    let mut out: Vec<char> = Vec::new();
    let mut k = lo;
    while k < hi
        invariant
            lo <= k <= hi <= s@.len(),
            out@ == s@.subrange(lo as int, k as int),
        decreases hi - k,
    {
        out.push(s[k]);
        k = k + 1;
        assert(out@ =~= s@.subrange(lo as int, k as int));
    }
    string_of(&out)
}

/// Returns the file name part of a diff mode (see `file_part`).
fn file_part_exec(s: &Vec<char>, lo: usize, hi: usize) -> (r: Option<String>)
    requires
        lo <= hi <= s@.len(),
    ensures
        opt_view(r) == file_part(s@.subrange(lo as int, hi as int)),
{
    if lo == hi {
        None
    } else {
        Some(substring(s, lo, hi))
    }
}

impl DiffMode {
    /// Parses a diff mode (see `diff_mode_spec`), or returns the message for a text that is none.
    pub fn from_str(s: &str) -> (r: Result<DiffMode, String>)
        ensures
            match diff_mode_spec(s@) {
                Some(m) => r matches Ok(d) && d.view_mode() == m,
                None => r matches Err(e) && e@ == diff_mode_error(s@),
            },
    {
        proof {
            reveal_strlit("slice");
            reveal_strlit("true");
            reveal_strlit("false");
            assert("slice"@ =~= word_slice());
            assert("true"@ =~= word_true());
            assert("false"@ =~= word_false());
        }
        if str_eq(s, "slice") {
            return Ok(DiffMode::Slice);
        }
        if str_eq(s, "true") {
            return Ok(DiffMode::Fixed { default: true, true_file: None, false_file: None });
        }
        if str_eq(s, "false") {
            return Ok(DiffMode::Fixed { default: false, true_file: None, false_file: None });
        }
        let cs = chars_of(s);
        proof {
            lemma_find_char(cs@, ',', 0);
        }
        let parsed = match find_char_exec(&cs, ',', 0) {
            None => None,
            Some(c1) => {
                proof {
                    lemma_find_char(cs@, ',', c1 + 1);
                }
                match find_char_exec(&cs, ',', c1 + 1) {
                    None => None,
                    Some(c2) => {
                        let head = substring(&cs, 0, c1);
                        let is_true = str_eq(head.as_str(), "true");
                        let is_false = str_eq(head.as_str(), "false");
                        if is_true || is_false {
                            Some(DiffMode::Fixed {
                                default: is_true,
                                true_file: file_part_exec(&cs, c1 + 1, c2),
                                false_file: file_part_exec(&cs, c2 + 1, cs.len()),
                            })
                        } else {
                            None
                        }
                    },
                }
            },
        };
        match parsed {
            Some(m) => Ok(m),
            None => {
                let mut out: Vec<char> = Vec::new();
                push_str_chars(&mut out, "invalid diff mode '");
                push_str_chars(&mut out, s);
                push_str_chars(&mut out, "'; expected 'slice', 'true', 'false', 'true,<true-file>,<false-file>', or 'false,<true-file>,<false-file>'");
                Err(string_of(&out))
            },
        }
    }
}

/// Parses a diff mode (see `DiffMode::from_str`).
pub fn parse_diff_mode(s: &str) -> (r: Result<DiffMode, String>)
    ensures
        match diff_mode_spec(s@) {
            Some(m) => r matches Ok(d) && d.view_mode() == m,
            None => r matches Err(e) && e@ == diff_mode_error(s@),
        },
{
    DiffMode::from_str(s)
}

/// Options for `diff`.
#[derive(Debug)]
pub struct DiffArgs {
    /// Left-side diff mode.
    pub left: DiffMode,
    /// Right-side diff mode.
    pub right: DiffMode,
    /// Perform model counting.
    pub count: bool,
    /// Perform projected model counting.
    pub projected_count: bool,
    /// Perform SAT-based classification.
    pub satisfy: bool,
    /// Use simplified reasoning for SAT-based classification.
    pub simplified: bool,
    /// Use distributive CNF transformation instead of Tseitin transformation.
    pub cnf_dist: bool,
    /// Use negation-based reasoning.
    pub negate: bool,
    /// Report results even if they may be incorrect.
    pub is_unsafe: bool,
    /// Output prefix for optional differencing artifacts.
    pub output: Option<String>,
    /// Write variable list files.
    pub variables: bool,
    /// Write constraint list files.
    pub constraints: bool,
    /// Serialize formula differences as UVL.
    pub uvl: bool,
    /// Serialize formula differences as XML.
    pub xml: bool,
    /// Write intermediate formula and clause representation files.
    pub cnf: bool,
    /// Suppress the CSV header line in the output.
    pub no_header: bool,
    /// Path to a variable mapping file for handling renamed, split, or merged variables.
    pub variable_map: Option<String>,
}

/// Top-level actions.
#[derive(Debug)]
pub enum Action {
    /// Print the transformed formula as CNF clauses (default).
    PrintClauses(ProjectionArgs),
    /// Print the transformed formula expression.
    PrintFormula,
    /// Print all sub-expressions of the transformed formula.
    PrintSubExprs,
    /// Performs no action after parsing and transformation.
    Nop,
    /// Check satisfiability and print a satisfying assignment, if any.
    Satisfy,
    /// Count satisfying assignments.
    Count(ProjectionArgs),
    /// Check model count against FeatureIDE as baseline.
    AssertCount,
    /// Enumerate satisfying assignments.
    Enumerate,
    /// Compute incremental counting expression between two formulas.
    CountInc(CountIncArgs),
    /// Compute difference between two formulas.
    Diff(DiffArgs),
}

/// The options given on the command line.
#[derive(Debug)]
pub struct CliOptions {
    /// Input items (file paths, stdin with - or -.extension, or inline .sat expressions).
    pub inputs: Vec<String>,
    /// Transformation steps.
    pub transforms: Vec<Transform>,
    /// The action to perform.
    pub action: Option<Action>,
    /// Options of external tools.
    pub tool_options: ToolOptions,
    /// Output formatting options.
    pub output_options: OutputOptions,
}

/// Returns whether an action ignores transform options (it implements its own transformations).
pub fn ignores_transforms(action: &Action) -> (r: bool)
    ensures
        r == (action is Diff || action is CountInc),
{
    match action {
        Action::Diff(_) | Action::CountInc(_) => true,
        _ => false,
    }
}

/// Where the variables to project to (or to slice away) come from.
#[derive(Debug)]
pub enum ProjectionSource {
    /// No projection was requested.
    Nothing,
    /// Variable names given directly, and whether they are sliced away (rather than projected to).
    Names(Vec<String>, bool),
    /// A file of variable names, and whether they are sliced away (rather than projected to).
    File(String, bool),
}

impl ProjectionArgs {
    /// Returns where the projection variables come from: the first of `project`, `slice`,
    /// `project_file` and `slice_file` that is given.
    pub fn source(&self) -> (r: ProjectionSource)
        ensures
            self.project@.len() > 0 ==> (r matches ProjectionSource::Names(v, false) && strings_view(v@) == strings_view(self.project@)),
            self.project@.len() == 0 && self.slice@.len() > 0 ==> (r matches ProjectionSource::Names(v, true) && strings_view(v@) == strings_view(self.slice@)),
            self.project@.len() == 0 && self.slice@.len() == 0 && self.project_file is Some
                ==> (r matches ProjectionSource::File(f, false) && f@ == self.project_file->0@),
            self.project@.len() == 0 && self.slice@.len() == 0 && self.project_file is None && self.slice_file is Some
                ==> (r matches ProjectionSource::File(f, true) && f@ == self.slice_file->0@),
            self.project@.len() == 0 && self.slice@.len() == 0 && self.project_file is None && self.slice_file is None
                ==> r is Nothing,
    {
        if self.project.len() > 0 {
            ProjectionSource::Names(copy_strings(&self.project), false)
        } else if self.slice.len() > 0 {
            ProjectionSource::Names(copy_strings(&self.slice), true)
        } else {
            match &self.project_file {
                Some(f) => ProjectionSource::File(copy_string(f), false),
                None => match &self.slice_file {
                    Some(f) => ProjectionSource::File(copy_string(f), true),
                    None => ProjectionSource::Nothing,
                },
            }
        }
    }
}

/// Returns a copy of a string.
fn copy_string(s: &String) -> (r: String)
    ensures
        r@ == s@,
{
    string_of(&chars_of(s.as_str()))
}

/// Returns a copy of a list of strings.
fn copy_strings(v: &Vec<String>) -> (r: Vec<String>)
    ensures
        strings_view(r@) == strings_view(v@),
{
    let mut r: Vec<String> = Vec::new();
    let mut i: usize = 0;
    while i < v.len()
        invariant
            i <= v@.len(),
            r@.len() == i,
            forall|j: int| 0 <= j < i ==> (#[trigger] r@[j])@ == v@[j]@,
        decreases v.len() - i,
    {
        r.push(copy_string(&v[i]));
        i = i + 1;
    }
    assert(strings_view(r@) =~= strings_view(v@));
    r
}

/// The variables of an arena with the given names.
pub open spec fn vars_named(vv: Seq<VarV>, names: Seq<Seq<char>>) -> Set<VarId> {
    Set::new(|v: VarId| 0 <= v < vv.len() && exists|i: int| 0 <= i < names.len() && vv[v as int] == VarV::Named(#[trigger] names[i]))
}

/// The position of the first name that is no variable name of the arena, if any.
pub open spec fn first_unknown(a: &Arena, names: Seq<Seq<char>>, i: int) -> Option<int>
    decreases names.len() - i,
{
    if !(0 <= i < names.len()) {
        None
    } else if !a.has_named(names[i]) {
        Some(i)
    } else {
        first_unknown(a, names, i + 1)
    }
}

/// The character sequences of a list of strings.
pub open spec fn strings_view(v: Seq<String>) -> Seq<Seq<char>> {
    v.map_values(|s: String| s@)
}

/// Resolves variable names to the identifiers of the arena's variables with those names.
///
/// Fails with the first name that is no variable name of the arena.
pub fn resolve_named_var_ids(arena: &Arena, names: &Vec<String>) -> (r: Result<HashSet<VarId>, String>)
    requires
        arena.wf(),
    ensures
        match first_unknown(arena, strings_view(names@), 0) {
            None => r matches Ok(s) && s@ == vars_named(arena.vv(), strings_view(names@)),
            Some(i) => r matches Err(e) && e@ == names@[i]@,
        },
{
    let ghost ns = strings_view(names@);
    let mut r: HashSet<VarId> = HashSet::new();
    let mut i: usize = 0;
    assert(r@ =~= vars_named(arena.vv(), ns.take(0)));
    while i < names.len()
        invariant
            arena.wf(),
            ns == strings_view(names@),
            i <= names@.len(),
            first_unknown(arena, ns, 0) == first_unknown(arena, ns, i as int),
            r@ == vars_named(arena.vv(), ns.take(i as int)),
        decreases names.len() - i,
    {
        match arena.get_var_named(copy_string(&names[i])) {
            None => {
                return Err(copy_string(&names[i]));
            },
            Some(v) => {
                let ghost r0 = r@;
                r.insert(v);
                proof {
                    assert(ns[i as int] == names@[i as int]@);
                    assert forall|x: VarId| r@.contains(x) <==> vars_named(arena.vv(), ns.take(i + 1)).contains(x) by {
                        if vars_named(arena.vv(), ns.take(i + 1)).contains(x) {
                            let j = choose|j: int| 0 <= j < ns.take(i + 1).len() && arena.vv()[x as int] == VarV::Named(#[trigger] ns.take(i + 1)[j]);
                            if j < i {
                                assert(ns.take(i as int)[j] == ns.take(i + 1)[j]);
                                assert(vars_named(arena.vv(), ns.take(i as int)).contains(x));
                            } else {
                                assert(arena.vars@[x as int]@ == arena.vars@[v as int]@);
                            }
                        }
                        if x == v {
                            assert(ns.take(i + 1)[i as int] == ns[i as int]);
                        } else if r0.contains(x) {
                            let j = choose|j: int| 0 <= j < ns.take(i as int).len() && arena.vv()[x as int] == VarV::Named(#[trigger] ns.take(i as int)[j]);
                            assert(ns.take(i + 1)[j] == ns.take(i as int)[j]);
                        }
                    }
                    assert(r@ =~= vars_named(arena.vv(), ns.take(i + 1)));
                }
            },
        }
        i = i + 1;
    }
    assert(ns.take(names@.len() as int) =~= ns);
    Ok(r)
}

/// The variables to project to for projected model counting, given the resolved variables of a
/// request: its complement within the formula's variables for a slice; no projection at all if
/// that is exactly the formula's variables.
pub open spec fn projection_spec(requested: Set<VarId>, is_slice: bool, sub: Set<VarId>) -> Option<Set<VarId>> {
    let p = if is_slice { sub.difference(requested) } else { requested };
    if p == sub { None } else { Some(p) }
}

/// A projection keeps exactly the requested variables, and a slice exactly the formula's other
/// variables: the two are disjoint, and together they are the formula's variables.
pub proof fn law_projection_and_slice(requested: Set<VarId>, sub: Set<VarId>)
    requires
        requested.subset_of(sub),
    ensures
        projection_spec(requested, false, sub) matches Some(p) ==> p == requested,
        projection_spec(requested, false, sub) is None ==> requested == sub,
        projection_spec(requested, true, sub) matches Some(p) ==> p.disjoint(requested) && p + requested == sub,
        projection_spec(requested, true, sub) is None ==> requested.is_empty(),
{
    if let Some(p) = projection_spec(requested, true, sub) {
        assert(p + requested =~= sub);
    }
    if projection_spec(requested, true, sub) is None {
        assert forall|v: VarId| !requested.contains(v) by {
            if requested.contains(v) {
                assert(!sub.difference(requested).contains(v));
            }
        }
        assert(requested =~= Set::empty());
    }
}

/// Computes the variables to project to for projected model counting (see `projection_spec`).
///
/// Fails with the first name that is no variable name of the arena.
pub fn count_projection_vars(names: &Vec<String>, is_slice: bool, formula: &Formula, arena: &Arena) -> (r: Result<Option<HashSet<VarId>>, String>)
    requires
        arena.wf(),
    ensures
        match first_unknown(arena, strings_view(names@), 0) {
            None => match projection_spec(vars_named(arena.vv(), strings_view(names@)), is_slice, formula.sub_var_ids@) {
                None => r matches Ok(None),
                Some(p) => r matches Ok(Some(s)) && s@ == p,
            },
            Some(i) => r matches Err(e) && e@ == names@[i]@,
        },
        !is_slice ==> (r matches Ok(Some(s)) ==> s@ == vars_named(arena.vv(), strings_view(names@))),
        is_slice ==> (r matches Ok(Some(s)) ==> s@ == formula.sub_var_ids@.difference(vars_named(arena.vv(), strings_view(names@)))),
        r matches Ok(None) && !is_slice ==> vars_named(arena.vv(), strings_view(names@)) == formula.sub_var_ids@,
        r matches Ok(None) && is_slice ==> formula.sub_var_ids@.difference(vars_named(arena.vv(), strings_view(names@))) == formula.sub_var_ids@,
{
    let ids = match resolve_named_var_ids(arena, names) {
        Err(e) => {
            return Err(e);
        },
        Ok(ids) => ids,
    };
    let projection = if is_slice { varset::difference(&formula.sub_var_ids, &ids) } else { ids };
    if varset::set_eq(&projection, &formula.sub_var_ids) {
        Ok(None)
    } else {
        Ok(Some(projection))
    }
}

} // verus!
