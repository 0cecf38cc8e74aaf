//! A verified compiler from a straight-line SSA-style intermediate
//! representation to code for a stack machine whose `dup` and `swap`
//! instructions reach only the top seventeen slots.
//!
//! The pipeline: [`parser::parse`] reads the surface syntax,
//! [`scope::resolve`] replaces names by dense variable identities,
//! [`analysis::count_occurrences`] counts remaining uses,
//! and [`codegen::generate`] schedules every statement on an abstract stack
//! machine, plans memory spills for values buried below the reachable
//! window, and lowers the result to a final instruction stream that is
//! proved to underflow nowhere and to address only the reachable window.

use vstd::prelude::*;

pub mod analysis;
pub mod codegen;
pub mod evm;
pub mod machine;
pub mod numeral;
pub mod parser;
pub mod program;
pub mod scope;
pub mod spill;

verus! {

/// Failure kinds surfaced by the compiler.
#[derive(Clone, Copy, PartialEq, Eq, Structural, Debug)]
pub enum CompileError {
    Parse,
    Resolve,
    Arity,
    UnknownOperator,
    Internal,
}

impl CompileError {
    /// The description each failure kind carries.
    pub open spec fn spec_message(self) -> Seq<char> {
        match self {
            CompileError::Parse => "malformed surface syntax"@,
            CompileError::Resolve => "reference to an unbound identifier"@,
            CompileError::Arity => "wrong number of operator arguments or results"@,
            CompileError::UnknownOperator => "operator name not in the arity table"@,
            CompileError::Internal => "internal invariant violation"@,
        }
    }

    /// A short human-readable description of the failure.
    pub fn message(&self) -> (r: &'static str)
        ensures
            r@ == self.spec_message(),
    {
        match self {
            CompileError::Parse => "malformed surface syntax",
            CompileError::Resolve => "reference to an unbound identifier",
            CompileError::Arity => "wrong number of operator arguments or results",
            CompileError::UnknownOperator => "operator name not in the arity table",
            CompileError::Internal => "internal invariant violation",
        }
    }
}

} // verus!
