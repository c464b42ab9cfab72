//! What can go wrong while generating.

use vstd::prelude::*;

verus! {

/// A failure of a generation step.
#[derive(Debug)]
pub enum GenError {
    /// A domain file is not valid JSON, or its top level is not an object.
    Parse { locale: String, domain: String },
    /// Two distinct key paths give the same identifier.
    IdentifierCollision { first: String, second: String },
}

} // verus!
