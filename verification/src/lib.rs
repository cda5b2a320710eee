//! Core types around sessions: deterministic session-key encoding, membership
//! proofs of past validator-set membership, validator-set views, and the
//! session transition handler protocol.
use vstd::prelude::*;

pub mod scale;
pub mod handler;
pub mod keygen;
pub mod membership;
pub mod session_keys;
pub mod validator_set;

verus! {

/// Counter identifying a session. Starts at 0 at genesis and is incremented
/// exactly once per session transition.
pub type SessionIndex = u32;

/// Number of validators in a given session.
pub type ValidatorCount = u32;

} // verus!
