//! An interpreter for the eight-symbol tape language: a lexer, a compiler that
//! collapses runs and matches brackets, and an engine that runs the compiled
//! program under configurable overflow and end-of-input policies.
use vstd::prelude::*;

pub mod interp;
pub mod parser;
pub mod syntax;

verus! {

} // verus!
