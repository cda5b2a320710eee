use sp_session::handler::OneSessionHandler;
use sp_session::handler::SessionRotation;
use sp_session::keygen::generate_initial_session_keys;
use sp_session::keygen::SessionKeysRuntime;
use sp_session::session_keys::decode_session_keys;
use sp_session::session_keys::encode_session_keys;
use sp_session::session_keys::KeyTypeId;

/// Records every protocol call it receives.
struct RecordingHandler {
    genesis: Vec<Vec<(u64, Vec<u8>)>>,
    sessions: Vec<(bool, Vec<(u64, Vec<u8>)>, Vec<(u64, Vec<u8>)>)>,
    disabled: Vec<usize>,
}

impl OneSessionHandler<u64> for RecordingHandler {
    type Key = Vec<u8>;

    fn on_genesis_session(&mut self, validators: &Vec<(u64, Vec<u8>)>) {
        self.genesis.push(validators.clone());
    }

    fn on_new_session(
        &mut self,
        changed: bool,
        validators: &Vec<(u64, Vec<u8>)>,
        queued_validators: &Vec<(u64, Vec<u8>)>,
    ) {
        self.sessions
            .push((changed, validators.clone(), queued_validators.clone()));
    }

    fn on_disabled(&mut self, validator_index: usize) {
        self.disabled.push(validator_index);
    }
}

fn pairs(ids: &[u64]) -> Vec<(u64, Vec<u8>)> {
    ids.iter().map(|id| (*id, vec![*id as u8; 4])).collect()
}

#[test]
fn queued_validators_become_next_sessions_validators() {
    let mut handler = RecordingHandler { genesis: Vec::new(), sessions: Vec::new(), disabled: Vec::new() };
    let mut tracker: SessionRotation<u64, Vec<u8>> = SessionRotation::new();
    assert_eq!(tracker.current_index(), 0);

    tracker.genesis(pairs(&[1, 2]), pairs(&[2, 3]));
    handler.on_genesis_session(tracker.current());
    assert_eq!(tracker.current_index(), 0);

    // three rotations, each announcing a fresh queued set
    for queued in [pairs(&[3, 4]), pairs(&[4, 5]), pairs(&[5, 6])] {
        tracker.rotate(queued);
        handler.on_new_session(true, tracker.current(), tracker.queued());
    }
    assert_eq!(tracker.current_index(), 3);

    assert_eq!(handler.genesis, vec![pairs(&[1, 2])]);
    assert_eq!(handler.sessions.len(), 3);
    // look-ahead: the queued set passed at session N equals the validator
    // set passed at session N + 1
    for n in 0..handler.sessions.len() - 1 {
        assert_eq!(handler.sessions[n].2, handler.sessions[n + 1].1);
    }
    // and the first rotation activates what genesis queued
    assert_eq!(handler.sessions[0].1, pairs(&[2, 3]));
}

#[test]
fn disabled_indices_are_gated_to_current_positions() {
    let mut handler = RecordingHandler { genesis: Vec::new(), sessions: Vec::new(), disabled: Vec::new() };
    let mut tracker: SessionRotation<u64, Vec<u8>> = SessionRotation::new();
    tracker.genesis(pairs(&[7, 8, 9]), pairs(&[7, 8]));

    for candidate in [0usize, 2, 3, 17] {
        if let Some(index) = tracker.check_disabled(candidate) {
            handler.on_disabled(index);
        }
    }
    // only positions 0 and 2 are valid in a three-validator session
    assert_eq!(handler.disabled, vec![0, 2]);

    // after a rotation the index space is the new session's
    tracker.rotate(pairs(&[7]));
    assert_eq!(tracker.check_disabled(2), None);
    assert_eq!(tracker.check_disabled(1), Some(1));
}

#[test]
fn ending_notification_fires_once_per_session() {
    let mut handler = RecordingHandler { genesis: Vec::new(), sessions: Vec::new(), disabled: Vec::new() };
    let mut tracker: SessionRotation<u64, Vec<u8>> = SessionRotation::new();
    tracker.genesis(pairs(&[1]), pairs(&[1]));
    // this handler keeps the default no-op ending notification
    handler.on_before_session_ending();
    tracker.note_session_ending();
    tracker.rotate(pairs(&[2]));
    // the rotation reopens the ending notification for the new session
    handler.on_before_session_ending();
    tracker.note_session_ending();
    assert_eq!(tracker.current_index(), 1);
    assert!(handler.sessions.is_empty() && handler.disabled.is_empty());
}

/// A deterministic stand-in for the runtime's key-generation entry point:
/// derives the bundle from the seed and logs what it stored.
struct FakeRuntime {
    stored: Vec<Vec<u8>>,
    fail_from: usize,
}

impl SessionKeysRuntime for FakeRuntime {
    type Error = String;

    fn generate_session_keys(&mut self, seed: Option<Vec<u8>>) -> Result<Vec<u8>, String> {
        if self.stored.len() >= self.fail_from {
            return Err("keystore unavailable".to_string());
        }
        let seed = match seed {
            Some(bytes) => bytes,
            None => return Err("seed required".to_string()),
        };
        let mut authoring = seed.clone();
        authoring.push(1);
        let bundle = encode_session_keys(&vec![
            (authoring, KeyTypeId(*b"aura")),
            (seed, KeyTypeId(*b"gran")),
        ]);
        self.stored.push(bundle.clone());
        Ok(bundle)
    }
}

#[test]
fn generate_with_two_seeds_stores_two_decodable_bundles() {
    let mut runtime = FakeRuntime { stored: Vec::new(), fail_from: usize::MAX };
    let seeds = vec!["alice".to_string(), "bob".to_string()];
    assert_eq!(generate_initial_session_keys(&mut runtime, seeds), Ok(()));
    assert_eq!(runtime.stored.len(), 2);

    let mut concatenated: Vec<u8> = Vec::new();
    let expected_seeds: [&[u8]; 2] = [b"alice", b"bob"];
    for (bundle, seed) in runtime.stored.iter().zip(expected_seeds) {
        // each stored bundle decodes independently into one or more pairs
        let decoded = decode_session_keys(bundle.clone()).expect("stored bundle decodes");
        assert_eq!(decoded.len(), 2);
        assert_eq!(decoded[0].1, KeyTypeId(*b"aura"));
        assert_eq!(decoded[1].1, KeyTypeId(*b"gran"));
        assert_eq!(decoded[1].0, seed.to_vec());
        concatenated.extend_from_slice(bundle);
    }
    // the concatenation of the returned blobs is itself a valid bundle
    let all = decode_session_keys(concatenated).expect("concatenated blob decodes");
    assert_eq!(all.len(), 4);
    assert_eq!(all[1].0, b"alice".to_vec());
    assert_eq!(all[3].0, b"bob".to_vec());
}

#[test]
fn first_failure_is_propagated_and_stops_the_sequence() {
    let mut runtime = FakeRuntime { stored: Vec::new(), fail_from: 1 };
    let seeds = vec!["alice".to_string(), "bob".to_string(), "carol".to_string()];
    let outcome = generate_initial_session_keys(&mut runtime, seeds);
    assert_eq!(outcome, Err("keystore unavailable".to_string()));
    // the failure on the second seed left exactly the first bundle stored
    assert_eq!(runtime.stored.len(), 1);
}

#[test]
fn no_seeds_means_no_calls_and_no_failure() {
    let mut runtime = FakeRuntime { stored: Vec::new(), fail_from: 0 };
    assert_eq!(generate_initial_session_keys(&mut runtime, Vec::new()), Ok(()));
    assert!(runtime.stored.is_empty());
}
