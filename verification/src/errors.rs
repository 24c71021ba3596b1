//! The error kinds that the store's operations and the command parser report.

use vstd::prelude::*;

verus! {

/// Why an operation or a parse was refused.
#[derive(Clone, Copy, PartialEq, Eq, Debug)]
pub enum SweaterError {
    /// A value fails its syntactic validation (alias, tag, relation kind or
    /// raw text).
    InvalidSyntax,
    /// A paragraph of the command language is malformed.
    InvalidCommand,
    /// An alias resolves to no thesis.
    UnknownAlias,
    /// An identifier refers to no stored thesis.
    UnknownThesis,
    /// A relation's kind is not in the configured supported set.
    UnsupportedKind,
    /// A relation's endpoint refers to no stored thesis.
    DanglingReference,
    /// A thesis with the same identity is already stored.
    Duplicate,
    /// Another live thesis already holds the alias.
    AliasInUse,
}

/// A parse failure: the index (starting at 1) of the first malformed
/// paragraph, and why it was refused.
#[derive(Clone, Copy, PartialEq, Eq, Debug)]
pub struct CommandParseError {
    pub paragraph: usize,
    pub cause: SweaterError,
}

} // verus!
