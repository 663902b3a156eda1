//! The enumerated fault kinds.
//!
//! Every detected fault is fatal to the run: the engine reports one of
//! these values and the caller decides how to present it and terminate.
//! Line numbers are 1-based positions in the original source.

use vstd::prelude::*;

verus! {

/// A fatal fault, carrying what a diagnostic needs.
#[derive(Debug, Clone, PartialEq, Eq)]
pub enum Error {
    /// The source text was empty.
    EmptySource,
    /// A line ended while a double-quoted literal was still open.
    UnterminatedString { line_number: usize, line: String },
    /// A `label` directive had an argument count other than one.
    LabelUsage { line_number: usize, found: usize },
    /// A `label` directive re-used a name already sealed.
    DuplicateLabel { line_number: usize, name: String },
    /// No label named `.ENTRY` exists.
    MissingEntry,
    /// A command was given the wrong number of arguments; `expected` is
    /// the exact count, or the minimum for `cmd_eq`.
    WrongArgCount { line_number: usize, command: String, expected: usize, found: usize },
    /// The first token of a line names no known command.
    UnknownCommand { line_number: usize, command: String },
    /// A read variable is not bound in the store.
    UndefinedVariable { line_number: usize, name: String },
    /// Variable indirection did not bottom out within the store's size.
    CyclicVariable { line_number: usize, name: String },
    /// A comparison operand did not classify as a number.
    NotNumber { line_number: usize, value: String },
    /// A `require`d variable is not bound.
    RequireFailed { line_number: usize, name: String, label: String },
    /// A `jmp` named a label that does not exist.
    UnknownLabel { line_number: usize, name: String },
    /// Nested label calls went deeper than the control-stack limit.
    CallDepthExceeded { line_number: usize, name: String },
}

/// The mathematical shape of an [`Error`].
pub enum ErrV {
    EmptySource,
    UnterminatedString { line_number: nat, line: Seq<char> },
    LabelUsage { line_number: nat, found: nat },
    DuplicateLabel { line_number: nat, name: Seq<char> },
    MissingEntry,
    WrongArgCount { line_number: nat, command: Seq<char>, expected: nat, found: nat },
    UnknownCommand { line_number: nat, command: Seq<char> },
    UndefinedVariable { line_number: nat, name: Seq<char> },
    CyclicVariable { line_number: nat, name: Seq<char> },
    NotNumber { line_number: nat, value: Seq<char> },
    RequireFailed { line_number: nat, name: Seq<char>, label: Seq<char> },
    UnknownLabel { line_number: nat, name: Seq<char> },
    CallDepthExceeded { line_number: nat, name: Seq<char> },
}

impl View for Error {
    type V = ErrV;

    open spec fn view(&self) -> ErrV {
        match self {
            Error::EmptySource => ErrV::EmptySource,
            Error::UnterminatedString { line_number, line } => (ErrV::UnterminatedString {
                line_number: *line_number as nat,
                line: line@,
            }),
            Error::LabelUsage { line_number, found } => (ErrV::LabelUsage {
                line_number: *line_number as nat,
                found: *found as nat,
            }),
            Error::DuplicateLabel { line_number, name } => (ErrV::DuplicateLabel {
                line_number: *line_number as nat,
                name: name@,
            }),
            Error::MissingEntry => ErrV::MissingEntry,
            Error::WrongArgCount { line_number, command, expected, found } => (
            ErrV::WrongArgCount {
                line_number: *line_number as nat,
                command: command@,
                expected: *expected as nat,
                found: *found as nat,
            }),
            Error::UnknownCommand { line_number, command } => (ErrV::UnknownCommand {
                line_number: *line_number as nat,
                command: command@,
            }),
            Error::UndefinedVariable { line_number, name } => (ErrV::UndefinedVariable {
                line_number: *line_number as nat,
                name: name@,
            }),
            Error::CyclicVariable { line_number, name } => (ErrV::CyclicVariable {
                line_number: *line_number as nat,
                name: name@,
            }),
            Error::NotNumber { line_number, value } => (ErrV::NotNumber {
                line_number: *line_number as nat,
                value: value@,
            }),
            Error::RequireFailed { line_number, name, label } => (ErrV::RequireFailed {
                line_number: *line_number as nat,
                name: name@,
                label: label@,
            }),
            Error::UnknownLabel { line_number, name } => (ErrV::UnknownLabel {
                line_number: *line_number as nat,
                name: name@,
            }),
            Error::CallDepthExceeded { line_number, name } => (ErrV::CallDepthExceeded {
                line_number: *line_number as nat,
                name: name@,
            }),
        }
    }
}

} // verus!
