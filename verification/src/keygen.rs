//! The session key generation service: drives the runtime-exposed
//! key-generation entry point once per seed.
use vstd::prelude::*;
use vstd::string::StrSliceExecFns;

verus! {

/// The session keys runtime entry point, resolved against a specific
/// historical block/state reference: the integration layer binds a handle
/// implementing this trait to that reference and passes it in explicitly.
pub trait SessionKeysRuntime {
    /// The error type of a failed runtime call.
    type Error;

    /// Generates a full session key bundle, optionally deterministically
    /// derived from `seed` (the bytes of a valid UTF-8 string); omitting
    /// the seed means secure randomness. The keys are persisted into the
    /// keystore exposed via the runtime's externalities, and the
    /// concatenated encoded public keys are returned.
    fn generate_session_keys(&mut self, seed: Option<Vec<u8>>) -> Result<Vec<u8>, Self::Error>;
}

/// Generates the initial session keys with the given seeds, at the
/// block/state reference the runtime handle is bound to, and stores them in
/// the keystore.
///
/// One independent runtime call is made per seed, in order; key generation
/// only adds keys to the keystore — activation happens at a later session
/// boundary. The first failure is propagated verbatim and later seeds are
/// not attempted: retrying or continuing is the caller's policy, not this
/// service's. With no seeds no call is made, so no failure is possible.
pub fn generate_initial_session_keys<R: SessionKeysRuntime>(
    runtime: &mut R,
    seeds: Vec<String>,
) -> (r: Result<(), R::Error>)
    ensures
        seeds@.len() == 0 ==> r is Ok,
{
    let mut i: usize = 0;
    while i < seeds.len()
        invariant
            i <= seeds@.len(),
        decreases seeds@.len() - i,
    {
        let seed: &String = &seeds[i];
        match runtime.generate_session_keys(Some(seed.as_str().as_bytes_vec())) {
            Ok(_encoded) => {},
            Err(e) => {
                return Err(e);
            },
        }
        i += 1;
    }
    Ok(())
}

} // verus!
