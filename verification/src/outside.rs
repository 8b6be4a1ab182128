//! Outside types that pass through the library.

use vstd::prelude::*;

verus! {

/// `postcard::Error`, the codec's account of why bytes could not be produced or read.
#[verifier::external_type_specification]
pub struct ExPostcardError(postcard::Error);

/// `std::io::Error`, carried through untouched from whoever performed the file operation.
#[verifier::external_type_specification]
#[verifier::external_body]
pub struct ExIoError(std::io::Error);

/// `std::path::PathBuf`, the location of the log file.
#[verifier::external_type_specification]
#[verifier::external_body]
pub struct ExPathBuf(std::path::PathBuf);

} // verus!
