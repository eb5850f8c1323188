//! The library's error type.

use vstd::prelude::*;

verus! {

/// Errors that the library reports to its callers. `Parsing` carries a
/// description of a malformed register-pattern input; `NoVacancy` is kept for
/// callers that want to treat a full population container as an error.
#[derive(Debug)]
pub enum Error {
    Parsing(String),
    NoVacancy,
}

} // verus!
