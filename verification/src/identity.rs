//! Minting of connection identities.
//!
//! An identity is an opaque 128-bit token drawn at random when a socket is
//! accepted.  Randomness promises nothing Verus could use, so the registry
//! checks freshness itself and rejects the (negligible) collision instead
//! of trusting it away.

use vstd::prelude::*;

verus! {

/// Relies on `uuid::Uuid::new_v4` (a version-4 UUID drawn from the system
/// random source) and `Uuid::as_u128` to mint a fresh 128-bit token.  The
/// value is random, so nothing is promised of it.
#[verifier::external_body]
pub fn mint_identity() -> (r: u128) {
    uuid::Uuid::new_v4().as_u128()
}

} // verus!
