//! Where the vault lives.

use std::path::PathBuf;
use vstd::prelude::*;

verus! {

/// `std::path::PathBuf`, carried through as an opaque value.
#[verifier::external_type_specification]
#[verifier::external_body]
pub struct ExPathBuf(PathBuf);

/// Settings of the vault server.
pub struct Config {
    /// The vault's root directory.
    pub vault_path: PathBuf,
}

} // verus!
