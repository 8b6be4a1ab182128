//! The two ways an operation on the store can fail.

use vstd::prelude::*;
use vstd::std_specs::convert::FromSpecImpl;

verus! {

/// Every failure the store reports. Neither kind is retried or repaired.
#[derive(Debug)]
pub enum PerdsError {
    /// The file system refused an open, a read, a write or a flush.
    FileError(std::io::Error),
    /// A record could not be turned into bytes, or bytes into a record.
    SerError(postcard::Error),
}

impl From<std::io::Error> for PerdsError {
    fn from(err: std::io::Error) -> (e: Self)
        ensures
            e == PerdsError::FileError(err),
    {
        PerdsError::FileError(err)
    }
}

impl FromSpecImpl<std::io::Error> for PerdsError {
    open spec fn obeys_from_spec() -> bool {
        true
    }

    open spec fn from_spec(err: std::io::Error) -> Self {
        PerdsError::FileError(err)
    }
}

impl From<postcard::Error> for PerdsError {
    fn from(value: postcard::Error) -> (e: Self)
        ensures
            e == PerdsError::SerError(value),
    {
        PerdsError::SerError(value)
    }
}

impl FromSpecImpl<postcard::Error> for PerdsError {
    open spec fn obeys_from_spec() -> bool {
        true
    }

    open spec fn from_spec(value: postcard::Error) -> Self {
        PerdsError::SerError(value)
    }
}

} // verus!
