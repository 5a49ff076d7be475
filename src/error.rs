use vstd::prelude::*;

verus! {

#[verifier::external_type_specification]
#[verifier::external_body]
pub struct ExIoError(std::io::Error);

/// What can go wrong while statistics are gathered: a document could not be read.
#[derive(Debug)]
pub enum Error {
    IO(std::io::Error),
}

} // verus!
