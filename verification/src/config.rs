//! Configuration values of the core.  Loading them — from files and the
//! environment — is the surrounding application's concern.

use vstd::prelude::*;

verus! {

/// Database connection settings.
pub struct Database {
    pub url: String,
}

} // verus!
