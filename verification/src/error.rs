//! The error of a discovery run.

use vstd::prelude::*;
use vstd::std_specs::convert::FromSpecImpl;

verus! {

/// `std::io::Error`, carried through unread.
#[verifier::external_type_specification]
#[verifier::external_body]
pub struct ExIoError(std::io::Error);

/// What can fail in a discovery run: reading and writing.
#[derive(Debug)]
pub enum DiscoveryError {
    IO(std::io::Error),
}

impl From<std::io::Error> for DiscoveryError {
    fn from(e: std::io::Error) -> (r: DiscoveryError)
    {
        DiscoveryError::IO(e)
    }
}

impl FromSpecImpl<std::io::Error> for DiscoveryError {
    open spec fn obeys_from_spec() -> bool {
        true
    }

    open spec fn from_spec(e: std::io::Error) -> DiscoveryError {
        DiscoveryError::IO(e)
    }
}

} // verus!
