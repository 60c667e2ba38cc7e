use vstd::prelude::*;

verus! {

/// Failure conditions surfaced by the code generator.
#[derive(Clone, Copy, Debug, PartialEq, Eq, Structural)]
pub enum CodegenError {
    /// Identifier derivation was attempted on a fragment whose name is
    /// absent or empty.
    MissingName,
    /// The input text was not a well-formed JSON document.
    Json,
}

} // verus!
