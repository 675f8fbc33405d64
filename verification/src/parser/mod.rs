//! Parsers for feature-model formula files.

pub mod expr;
pub mod header;
pub mod declare;
pub mod sat;
pub mod cnf;
pub mod model;
pub mod sat_inline;

use vstd::prelude::*;
use crate::arena::{Arena, extends};
use crate::file::File;
use crate::formula::Formula;
use crate::parser::cnf::{CnfFormulaParser, cnf_parsed};
use crate::parser::model::{ModelParser, model_parsed};
use crate::parser::sat::{SatFormulaParser, sat_parsed};
use crate::text::str_eq;

verus! {

/// Why a formula file could not be parsed.
#[derive(Debug, PartialEq, Eq, Structural)]
pub enum ParseError {
    /// The text does not follow the file format.
    Syntax,
    /// A formula refers to a variable (or formula) that was not declared.
    UnknownVariable,
    /// The file declares more variables than an arena can hold.
    TooManyVariables,
    /// The number of clauses differs from the number declared in the problem line.
    ClauseCount,
    /// The file format needs a conversion by an external tool before it can be parsed.
    Unsupported,
}

/// The parser for a file format.
#[derive(Debug)]
pub enum ParserKind {
    /// The .sat format.
    Sat,
    /// The .model format.
    Model,
    /// The .cnf (DIMACS) format.
    Cnf,
    /// Any format that FeatureIDE can read (given by its extension), to be converted to .sat first.
    Io(String),
}

/// The name of the .sat format.
pub open spec fn ext_sat() -> Seq<char> {
    seq!['s', 'a', 't']
}

/// The name of the .model format.
pub open spec fn ext_model() -> Seq<char> {
    seq!['m', 'o', 'd', 'e', 'l']
}

/// The names of the DIMACS format.
pub open spec fn ext_cnf() -> Seq<char> {
    seq!['c', 'n', 'f']
}

/// The other name of the DIMACS format.
pub open spec fn ext_dimacs() -> Seq<char> {
    seq!['d', 'i', 'm', 'a', 'c', 's']
}

/// Returns the parser for a file extension: .sat (also without extension), .model, .cnf or .dimacs,
/// and otherwise a conversion through FeatureIDE.
pub fn parser(extension: Option<String>) -> (r: ParserKind)
    ensures
        match extension {
            None => r is Sat,
            Some(e) => if e@ == ext_sat() {
                r is Sat
            } else if e@ == ext_model() {
                r is Model
            } else if e@ == ext_cnf() || e@ == ext_dimacs() {
                r is Cnf
            } else {
                r matches ParserKind::Io(x) && x@ == e@
            },
        },
{
    proof {
        reveal_strlit("sat");
        reveal_strlit("model");
        reveal_strlit("cnf");
        reveal_strlit("dimacs");
        assert("sat"@ =~= ext_sat());
        assert("model"@ =~= ext_model());
        assert("cnf"@ =~= ext_cnf());
        assert("dimacs"@ =~= ext_dimacs());
    }
    match extension {
        None => ParserKind::Sat,
        Some(e) => {
            if str_eq(e.as_str(), "sat") {
                ParserKind::Sat
            } else if str_eq(e.as_str(), "model") {
                ParserKind::Model
            } else if str_eq(e.as_str(), "cnf") || str_eq(e.as_str(), "dimacs") {
                ParserKind::Cnf
            } else {
                ParserKind::Io(e)
            }
        },
    }
}

/// What parsing a file with a parser yields.
pub open spec fn parsed_with(kind: ParserKind, old_a: &Arena, new_a: &Arena, contents: Seq<char>, r: Result<Formula, ParseError>) -> bool {
    match kind {
        ParserKind::Sat => sat_parsed(old_a, new_a, contents, r),
        ParserKind::Model => model_parsed(old_a, new_a, contents, r),
        ParserKind::Cnf => cnf_parsed(old_a, new_a, contents, r),
        ParserKind::Io(_) => r == Err::<Formula, ParseError>(ParseError::Unsupported) && new_a == old_a,
    }
}

impl Arena {
    /// Parses a feature-model formula file into this arena with the given parser.
    ///
    /// Formats that FeatureIDE reads must first be converted to .sat (see `IoFormulaParser`);
    /// for them this fails with `Unsupported`.
    pub fn parse(&mut self, file: File, parser: ParserKind) -> (r: Result<Formula, ParseError>)
        requires
            old(self).wf(),
        ensures
            crate::tseitin::tseitin_hyp(old(self).ev()) ==> crate::tseitin::tseitin_hyp(final(self).ev()),
            final(self).wf(),
            extends(final(self).ev(), old(self).ev()),
            extends(final(self).vv(), old(self).vv()),
            parsed_with(parser, old(self), final(self), file.contents@, r),
    {
        match parser {
            ParserKind::Sat => SatFormulaParser.parse_into(file, self),
            ParserKind::Model => ModelParser.parse_into(file, self),
            ParserKind::Cnf => CnfFormulaParser.parse_into(file, self),
            ParserKind::Io(_) => Err(ParseError::Unsupported),
        }
    }
}

/// Parses feature-model formula files in any format that FeatureIDE reads, once converted to .sat.
pub struct IoFormulaParser;

impl IoFormulaParser {
    /// Parses the .sat conversion of a file into an arena; the parsed formula refers to the given file.
    pub fn parse_converted(&self, file: File, converted: File, arena: &mut Arena) -> (r: Result<Formula, ParseError>)
        requires
            old(arena).wf(),
        ensures
            crate::tseitin::tseitin_hyp(old(arena).ev()) ==> crate::tseitin::tseitin_hyp(final(arena).ev()),
            final(arena).wf(),
            extends(final(arena).ev(), old(arena).ev()),
            extends(final(arena).vv(), old(arena).vv()),
            sat_parsed(old(arena), final(arena), converted.contents@, r),
            r matches Ok(f) ==> f.file matches Some(g) && g.name@ == file.name@ && g.contents@ == file.contents@,
    {
        match SatFormulaParser.parse_into(converted, arena) {
            Ok(f) => {
                let ghost g = f;
                let mut f = f;
                f.file = Some(file);
                proof {
                    if let Some((names, n, t)) = crate::parser::sat::sat_file(converted.contents@) {
                        if crate::parser::sat::has_room(old(arena), n) && crate::tree::refs_ok(t, n) {
                            let leaves = choose|leaves: Seq<crate::expr::ExprId>|
                                #[trigger] crate::parser::declare::declared(arena.ev(), arena.vv(), names, n, leaves, g.sub_var_ids@, old(arena).vv().len() as int)
                                && crate::tree::realizes(arena.ev(), arena.vv(), g.root_id, t, leaves);
                            assert(crate::parser::declare::declared(arena.ev(), arena.vv(), names, n, leaves, f.sub_var_ids@, old(arena).vv().len() as int));
                        }
                    }
                }
                Ok(f)
            },
            Err(e) => Err(e),
        }
    }
}

} // verus!
