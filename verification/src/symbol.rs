//! Identifiers of grammar symbols.

use vstd::prelude::*;

verus! {

pub type NonterminalId = u32;

pub type TerminalId = u32;

pub type ProductionId = u32;

pub type SccId = u32;

/// A symbol of a production's right-hand side.
#[derive(Clone, Copy, Debug, PartialEq, Eq, Structural, Hash)]
pub enum Symbol {
    Nonterminal(NonterminalId),
    Terminal(TerminalId),
}

} // verus!
