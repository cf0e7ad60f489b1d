//! The failures that parsing and tree traversals return.

use vstd::prelude::*;

verus! {

/// The standard library's `std::io::Error`, declared so that an `Error` can
/// carry one. Nothing is claimed of what it holds.
#[verifier::external_type_specification]
#[verifier::external_body]
pub struct ExIoError(std::io::Error);

/// Why an operation on source text or on a syntax tree failed.
#[derive(Debug)]
pub enum Error {
    /// Reading the source failed.
    Io(std::io::Error),
    /// The tokens do not form an expression.
    Parser,
    /// An expression could not be evaluated.
    Runtime,
}

} // verus!
