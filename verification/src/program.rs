use vstd::prelude::*;

use crate::numeral::Numeral;

verus! {

/// A right-hand side: a 256-bit literal, or a named operator applied to an
/// ordered list of arguments.
#[derive(Clone, Debug)]
pub enum Expression<V> {
    Const(Numeral),
    Op(Vec<u8>, Vec<V>),
}

/// One statement: the produced results and the expression producing them.
#[derive(Debug)]
pub struct Statement<V>(pub Vec<V>, pub Expression<V>);

/// A straight-line block of statements.
#[derive(Debug)]
pub struct Block<V>(pub Vec<Statement<V>>);

} // verus!
