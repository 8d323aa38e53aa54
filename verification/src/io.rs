use vstd::prelude::*;

verus! {

/// The operating system's input/output error, carried through unchanged.
#[verifier::external_type_specification]
#[verifier::external_body]
pub struct ExIoError(std::io::Error);

} // verus!
