//! A minimal line-oriented scripting-language interpreter.
//!
//! Source text is tokenized into lines of string tokens (double-quoted
//! literals form single tokens), grouped into named labels, and executed
//! starting from the `.ENTRY` label. Jumps have call semantics: control
//! returns to the line after a `jmp` once the called label's body finishes.
//!
//! Every fault is reported as an [`error::Error`] value; the library itself
//! never prints and never terminates the process.

use vstd::prelude::*;

pub mod ast;
pub mod error;
pub mod interpreter;
pub mod lexer;
pub mod numeric;
pub mod token;

verus! {

} // verus!
