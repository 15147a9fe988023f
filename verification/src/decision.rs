//! The two ways in which a validator can turn its input down.
use vstd::prelude::*;

verus! {

/// Why a validator refused its input.
pub enum Decision {
    /// The input was refused, and this text tells the user what is expected.
    Help(String),
    /// The input was refused with an error.
    Error(String),
}

} // verus!
