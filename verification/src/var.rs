//! Variables of an arena.

use vstd::prelude::*;
use crate::text::{push_decimal, push_str_chars, decimal};

verus! {

/// Identifier type for variables.
///
/// Serves as an index into the variables of an arena.
/// Clause representations also use this type for literals, so it is signed.
pub type VarId = i32;

/// A variable in an arena: either a named variable or an auxiliary (anonymous) one.
#[derive(Debug)]
pub enum Var {
    /// A named variable.
    Named(String),
    /// An auxiliary variable, identified by a number.
    Aux(u32),
}

/// The mathematical model of a variable.
pub enum VarV {
    Named(Seq<char>),
    Aux(u32),
}

impl View for Var {
    type V = VarV;

    open spec fn view(&self) -> VarV {
        match self {
            Var::Named(name) => VarV::Named(name@),
            Var::Aux(id) => VarV::Aux(*id),
        }
    }
}

impl Clone for Var {
    fn clone(&self) -> (r: Self)
        ensures
            r@ == self@,
    {
        match self {
            Var::Named(name) => Var::Named(name.clone()),
            Var::Aux(id) => Var::Aux(*id),
        }
    }
}

/// The printed name of a variable: its name, or for an auxiliary variable a prefix and its number.
pub open spec fn var_name(v: VarV, aux: Seq<char>) -> Seq<char> {
    match v {
        VarV::Named(name) => name,
        VarV::Aux(id) => aux + decimal(id as nat),
    }
}

impl Var {
    /// Appends the printed name of this variable to a character sequence.
    ///
    /// Named variables are printed by their name, auxiliary variables by the prefix `aux` and their number.
    pub fn push_name(&self, aux: &Vec<char>, out: &mut Vec<char>)
        ensures
            final(out)@ == old(out)@ + var_name(self@, aux@),
    {
        match self {
            Var::Named(name) => {
                push_str_chars(out, name.as_str());
            },
            Var::Aux(id) => {
                let ghost start = out@;
                crate::text::push_all(out, aux);
                push_decimal(out, *id as u64);
                assert(out@ =~= start + (aux@ + decimal(*id as nat)));
            },
        }
    }

    /// Returns the printed name of this variable, with the prefix `aux` for auxiliary variables.
    pub fn name_string(&self, aux: &Vec<char>) -> (r: String)
        ensures
            r@ == var_name(self@, aux@),
    {
        let mut out: Vec<char> = Vec::new();
        self.push_name(aux, &mut out);
        assert(out@ =~= var_name(self@, aux@));
        crate::text::string_of(&out)
    }

    /// Returns whether this is a named variable with the given name.
    pub fn has_name(&self, name: &str) -> (r: bool)
        ensures
            r == (self@ == VarV::Named(name@)),
    {
        match self {
            Var::Named(n) => crate::text::str_eq(n.as_str(), name),
            Var::Aux(_) => false,
        }
    }
}

} // verus!
