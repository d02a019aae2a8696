//! The errors of the library.
use vstd::prelude::*;

verus! {

#[derive(Debug)]
pub enum TombError {
    Io(String),
    Config(String),
    Parse(String),
    UnsupportedVersion(String),
    IdNotFound(String),
    AmbiguousId { prefix: String, matches: Vec<String> },
    Conflict(String),
}

} // verus!
