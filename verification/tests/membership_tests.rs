use parity_scale_codec::Encode;
use sp_session::membership::decode_membership_proof;
use sp_session::membership::encode_membership_proof;
use sp_session::membership::GetSessionNumber;
use sp_session::membership::GetValidatorCount;
use sp_session::membership::MembershipProof;
use sp_session::membership::Void;

#[test]
fn accessors_return_construction_values() {
    let proof = MembershipProof {
        session: 5,
        trie_nodes: vec![vec![1, 2, 3], vec![4, 5]],
        validator_count: 10,
    };
    assert_eq!(proof.session(), 5);
    assert_eq!(proof.validator_count(), 10);
}

#[test]
fn placeholder_returns_defaults() {
    let void = Void;
    assert_eq!(void.session(), 0);
    assert_eq!(void.validator_count(), 0);
    let copy = Void::default();
    assert_eq!(copy.session(), 0);
    assert_eq!(copy.validator_count(), 0);
}

#[test]
fn default_proof_is_zeroed() {
    let proof = MembershipProof::default();
    assert_eq!(proof.session, 0);
    assert!(proof.trie_nodes.is_empty());
    assert_eq!(proof.validator_count, 0);
}

#[test]
fn proof_encoding_matches_reference_codec() {
    let proof = MembershipProof {
        session: 5,
        trie_nodes: vec![vec![1, 2, 3], vec![], vec![255; 70]],
        validator_count: 10,
    };
    let reference = (5u32, proof.trie_nodes.clone(), 10u32).encode();
    assert_eq!(encode_membership_proof(&proof), reference);
}

#[test]
fn proof_commitment_is_session_sensitive() {
    // a proof constructed for session 5 commits to different bytes than the
    // same path presented for session 6, so a state-root check bound to
    // session 5 cannot accept it for session 6
    let nodes = vec![vec![9u8, 9, 9], vec![8u8]];
    let for_five = MembershipProof { session: 5, trie_nodes: nodes.clone(), validator_count: 10 };
    let for_six = MembershipProof { session: 6, trie_nodes: nodes, validator_count: 10 };
    assert_eq!(for_five.session(), 5);
    assert_ne!(
        encode_membership_proof(&for_five),
        encode_membership_proof(&for_six)
    );
}

#[test]
fn proof_round_trip() {
    let proof = MembershipProof {
        session: 5,
        trie_nodes: vec![vec![1, 2, 3], vec![], vec![42; 100]],
        validator_count: 10,
    };
    let blob = encode_membership_proof(&proof);
    assert_eq!(decode_membership_proof(&blob), Some(proof));
}

#[test]
fn proof_decode_rejects_malformed_blobs() {
    let proof = MembershipProof {
        session: 1,
        trie_nodes: vec![vec![7u8; 8]],
        validator_count: 2,
    };
    let blob = encode_membership_proof(&proof);
    for cut in 0..blob.len() {
        assert_eq!(decode_membership_proof(&blob[..cut].to_vec()), None, "cut at {cut}");
    }
    let mut trailing = blob.clone();
    trailing.push(0);
    assert_eq!(decode_membership_proof(&trailing), None);
    // a blob whose node count promises more nodes than it holds
    let mut short = Vec::new();
    sp_session::scale::write_u32_le(&mut short, 1);
    sp_session::scale::write_compact_u32(&mut short, 3);
    short.extend_from_slice(&[4, 9]); // one node of one byte, then nothing
    assert_eq!(decode_membership_proof(&short), None);
}

#[test]
fn proof_encoding_is_deterministic() {
    let proof = MembershipProof {
        session: 7,
        trie_nodes: vec![vec![0; 3], vec![1; 64]],
        validator_count: 4,
    };
    assert_eq!(
        encode_membership_proof(&proof),
        encode_membership_proof(&proof.clone())
    );
}
