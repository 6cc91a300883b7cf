//! The standard library's I/O error, carried by the error types of this crate.
use vstd::prelude::*;

verus! {

/// `std::io::Error`, carried through unchanged by the error types here.
#[verifier::external_type_specification]
#[verifier::external_body]
pub struct ExIoError(std::io::Error);

} // verus!
