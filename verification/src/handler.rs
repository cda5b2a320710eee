//! The session transition handler protocol, and a verified rotation tracker
//! that lets a coordinator uphold the protocol's ordering obligations.
use vstd::prelude::*;
use crate::SessionIndex;

verus! {

/// A session handler for one specific key type, driven by an external
/// session-rotation coordinator at three points of a session's lifecycle —
/// genesis, new-session, session-ending — plus the best-effort
/// validator-disabled notification.
///
/// Ordering obligations of the coordinator, which this protocol does not
/// itself detect (misuse is a caller bug): the genesis call happens exactly
/// once per chain lifetime, strictly before any new-session call; the ending
/// notification fires at most once per session, strictly before the next
/// new-session call; a disabled notification carries a valid position in the
/// current session's validator ordering. `SessionRotation` is a tracker
/// whose contracts uphold these obligations for the coordinator.
pub trait OneSessionHandler<ValidatorId> {
    /// The session key type this handler expects.
    type Key;

    /// Seeds the handler's view of the current keys, before any session
    /// transition has occurred.
    fn on_genesis_session(&mut self, validators: &Vec<(ValidatorId, Self::Key)>);

    /// The session set has changed; act appropriately. `changed` is false
    /// only when the validator identities, their keys and the economic
    /// identities behind them are unchanged from the previous session, so
    /// handlers may use it as a fast-path skip — though a false value does
    /// not promise that nothing observable differs at a higher layer.
    /// `validators` are the validators of the incoming session;
    /// `queued_validators` are the ones already known to follow them.
    fn on_new_session(
        &mut self,
        changed: bool,
        validators: &Vec<(ValidatorId, Self::Key)>,
        queued_validators: &Vec<(ValidatorId, Self::Key)>,
    );

    /// A notification for the end of the session, triggered before any
    /// external session-ending handlers run, so this handler can still
    /// affect the outgoing validator set.
    fn on_before_session_ending(&mut self) {
    }

    /// A validator got disabled; act accordingly until a new session
    /// begins. The positional index space stays stable for the remainder of
    /// the session.
    fn on_disabled(&mut self, validator_index: usize);
}

/// The bookkeeping a session-rotation coordinator needs to drive
/// `OneSessionHandler` calls within their obligations: it pairs the active
/// session's validator-key list with the queued one, counts sessions, and
/// pins down the look-ahead law — the queued validators handed out for one
/// session are exactly the validators handed out for the next.
pub struct SessionRotation<V, K> {
    started: bool,
    index: SessionIndex,
    ended: bool,
    current: Vec<(V, K)>,
    queued: Vec<(V, K)>,
}

/// One rotation step: `post` is `pre` advanced by one session, with the
/// previously queued pairs now active and `next_queued` taking their place.
pub open spec fn rotated<V, K>(
    pre: SessionRotation<V, K>,
    post: SessionRotation<V, K>,
    next_queued: Seq<(V, K)>,
) -> bool {
    &&& post.spec_started()
    &&& post.spec_index() == pre.spec_index() + 1
    &&& !post.spec_ended()
    &&& post.spec_current() == pre.spec_queued()
    &&& post.spec_queued() == next_queued
}

impl<V, K> SessionRotation<V, K> {
    /// Whether the genesis session has been recorded.
    pub closed spec fn spec_started(&self) -> bool {
        self.started
    }

    /// Session index of the currently active session.
    pub closed spec fn spec_index(&self) -> SessionIndex {
        self.index
    }

    /// Whether the ending notification was already given in this session.
    pub closed spec fn spec_ended(&self) -> bool {
        self.ended
    }

    /// Validator-key pairs of the active session, in positional order.
    pub closed spec fn spec_current(&self) -> Seq<(V, K)> {
        self.current@
    }

    /// Validator-key pairs queued for the following session.
    pub closed spec fn spec_queued(&self) -> Seq<(V, K)> {
        self.queued@
    }

    /// A fresh tracker: genesis not yet recorded, session counter at zero.
    pub fn new() -> (r: Self)
        ensures
            !r.spec_started(),
            r.spec_index() == 0,
            !r.spec_ended(),
            r.spec_current().len() == 0,
            r.spec_queued().len() == 0,
    {
        SessionRotation {
            started: false,
            index: 0,
            ended: false,
            current: Vec::new(),
            queued: Vec::new(),
        }
    }

    /// Records the genesis session. Happens exactly once, strictly before
    /// any rotation; the session counter stays at its genesis value.
    pub fn genesis(&mut self, validators: Vec<(V, K)>, queued: Vec<(V, K)>)
        requires
            !old(self).spec_started(),
        ensures
            final(self).spec_started(),
            final(self).spec_index() == old(self).spec_index(),
            !final(self).spec_ended(),
            final(self).spec_current() == validators@,
            final(self).spec_queued() == queued@,
    {
        self.started = true;
        self.ended = false;
        self.current = validators;
        self.queued = queued;
    }

    /// Advances to the next session. The incoming session's validators are
    /// exactly the pairs queued at the previous session — the look-ahead
    /// law — and the session counter increments exactly once, so indices
    /// never decrease and are never reused.
    pub fn rotate(&mut self, next_queued: Vec<(V, K)>)
        requires
            old(self).spec_started(),
            old(self).spec_index() < 4294967295,
        ensures
            rotated(*old(self), *final(self), next_queued@),
            final(self).spec_started(),
            final(self).spec_index() == old(self).spec_index() + 1,
            !final(self).spec_ended(),
            final(self).spec_current() == old(self).spec_queued(),
            final(self).spec_queued() == next_queued@,
    {
        self.index = self.index + 1;
        self.ended = false;
        let mut incoming = next_queued;
        core::mem::swap(&mut self.queued, &mut incoming);
        core::mem::swap(&mut self.current, &mut incoming);
    }

    /// The validator-key pairs to hand to `on_genesis_session` and, as
    /// `validators`, to `on_new_session` for the active session.
    pub fn current(&self) -> (r: &Vec<(V, K)>)
        ensures
            r@ == self.spec_current(),
    {
        &self.current
    }

    /// The validator-key pairs to hand to `on_new_session` as
    /// `queued_validators` for the active session.
    pub fn queued(&self) -> (r: &Vec<(V, K)>)
        ensures
            r@ == self.spec_queued(),
    {
        &self.queued
    }

    /// Returns the session index of the active session.
    pub fn current_index(&self) -> (r: SessionIndex)
        ensures
            r == self.spec_index(),
    {
        self.index
    }

    /// Records that the ending notification was given: at most once per
    /// session, strictly before the next rotation, and only after genesis.
    pub fn note_session_ending(&mut self)
        requires
            old(self).spec_started(),
            !old(self).spec_ended(),
        ensures
            final(self).spec_started(),
            final(self).spec_ended(),
            final(self).spec_index() == old(self).spec_index(),
            final(self).spec_current() == old(self).spec_current(),
            final(self).spec_queued() == old(self).spec_queued(),
    {
        self.ended = true;
    }

    /// Validates a disabled-validator index against the active session:
    /// returns the index exactly when it is a position in the current
    /// session's validator ordering, so `on_disabled` is only ever driven
    /// with a valid position.
    pub fn check_disabled(&self, validator_index: usize) -> (r: Option<usize>)
        ensures
            validator_index < self.spec_current().len() ==> r == Some(validator_index),
            validator_index >= self.spec_current().len() ==> r is None,
    {
        if validator_index < self.current.len() {
            Some(validator_index)
        } else {
            None
        }
    }
}

/// Ordering invariant across a sequence of rotations: the queued validators
/// of session N are exactly the validators of session N + 1, and the
/// session counter advances by exactly one per rotation.
pub proof fn lemma_look_ahead<V, K>(
    s0: SessionRotation<V, K>,
    s1: SessionRotation<V, K>,
    s2: SessionRotation<V, K>,
    q1: Seq<(V, K)>,
    q2: Seq<(V, K)>,
)
    requires
        rotated(s0, s1, q1),
        rotated(s1, s2, q2),
    ensures
        s1.spec_queued() == q1,
        s2.spec_current() == q1,
        s2.spec_index() == s0.spec_index() + 2,
{
}

} // verus!
