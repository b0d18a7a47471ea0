//! Errors reported at the store's operation boundary.

use vstd::prelude::*;

verus! {

/// A store operation failed: either the index transducer library rejected
/// something (a malformed index, an out-of-order or duplicate key), or the
/// underlying byte I/O failed. The original cause is preserved.
#[derive(Debug)]
pub enum StoreError {
    Fst(fst::Error),
    IO(std::io::Error),
}

impl From<fst::Error> for StoreError {
    fn from(e: fst::Error) -> (r: Self) {
        StoreError::Fst(e)
    }
}

impl vstd::std_specs::convert::FromSpecImpl<fst::Error> for StoreError {
    open spec fn obeys_from_spec() -> bool {
        true
    }

    open spec fn from_spec(e: fst::Error) -> Self {
        StoreError::Fst(e)
    }
}

impl From<std::io::Error> for StoreError {
    fn from(e: std::io::Error) -> (r: Self) {
        StoreError::IO(e)
    }
}

impl vstd::std_specs::convert::FromSpecImpl<std::io::Error> for StoreError {
    open spec fn obeys_from_spec() -> bool {
        true
    }

    open spec fn from_spec(e: std::io::Error) -> Self {
        StoreError::IO(e)
    }
}

} // verus!
