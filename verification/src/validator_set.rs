//! Pluggable views of the current validator set, decoupled from any specific
//! staking implementation.
use vstd::prelude::*;
use crate::SessionIndex;

verus! {

/// Trait for retrieving the session info needed for online node inspection.
///
/// A view supplies the authoritative "who is a validator now" answer: the
/// current session index and the ordered list of validators expected to be
/// online, so that modules reporting offences can be handed any list of
/// validators considered online in each session, in particular by systems
/// with their own staking implementation.
pub trait ValidatorSet<AccountId> {
    /// The short-lived, per-session-set validator identity type.
    type ValidatorId;

    /// Returns the current session index, consistent with what the session
    /// transition handlers most recently observed as the new session.
    fn current_index(&self) -> SessionIndex;

    /// Returns all the validators expected to be online in the current
    /// session, all expected to be running an authority node. The order is
    /// significant: it defines the positional indices referenced elsewhere,
    /// for instance by the validator-disabled notification.
    fn validators(&self) -> Vec<Self::ValidatorId>;

    /// Maps an account to its validator identity, if the account is one.
    fn validator_id_of(&self, account: &AccountId) -> Option<Self::ValidatorId>;
}

/// `ValidatorSet` combined with a stable identification type, for
/// resolving long-term accountability: a misbehavior proof referencing an
/// old session can still resolve to a responsible party even though the
/// validator is no longer in the active set.
pub trait ValidatorSetWithIdentification<AccountId>: ValidatorSet<AccountId> {
    /// The stable, long-lived identification type.
    type Identification;

    /// Maps a validator identity to its stable identification. `None` means
    /// the identity cannot be durably identified; integrators that rely on
    /// slashing must treat that as a configuration error, not as a silent
    /// skip.
    fn identification_of(&self, validator: &Self::ValidatorId) -> Option<Self::Identification>;
}

} // verus!
