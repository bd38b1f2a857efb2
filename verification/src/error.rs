//! Errors of the value conversions.
use vstd::prelude::*;

verus! {

/// A conversion failed; the message says why.
#[derive(Debug, PartialEq, Clone)]
pub enum Error {
    Message(String),
}

} // verus!
