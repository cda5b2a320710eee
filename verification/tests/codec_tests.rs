use parity_scale_codec::Compact;
use parity_scale_codec::Encode;
use sp_session::scale::read_compact_u32;
use sp_session::scale::read_u32_le;
use sp_session::scale::write_compact_u32;
use sp_session::scale::write_u32_le;
use sp_session::session_keys::decode_session_keys;
use sp_session::session_keys::encode_session_keys;
use sp_session::session_keys::KeyTypeId;

#[test]
fn u32_le_matches_reference_codec() {
    for v in [0u32, 1, 255, 256, 65536, 16777216, 4294967295] {
        let mut ours: Vec<u8> = Vec::new();
        write_u32_le(&mut ours, v);
        assert_eq!(ours, v.encode());
        assert_eq!(read_u32_le(&ours, 0), v);
    }
}

#[test]
fn compact_matches_reference_codec() {
    for v in [
        0u32, 1, 42, 63, 64, 255, 16383, 16384, 65535, 1073741823, 1073741824, 4294967295,
    ] {
        let mut ours: Vec<u8> = Vec::new();
        write_compact_u32(&mut ours, v);
        assert_eq!(ours, Compact(v).encode(), "compact encoding of {v}");
        let (decoded, used) = read_compact_u32(&ours, 0).expect("canonical form decodes");
        assert_eq!(decoded, v);
        assert_eq!(used, ours.len());
    }
}

#[test]
fn compact_exact_bytes() {
    let mut one: Vec<u8> = Vec::new();
    write_compact_u32(&mut one, 42);
    assert_eq!(one, vec![168]);
    let mut two: Vec<u8> = Vec::new();
    write_compact_u32(&mut two, 69);
    assert_eq!(two, vec![21, 1]);
    let mut four: Vec<u8> = Vec::new();
    write_compact_u32(&mut four, 1073741823);
    assert_eq!(four, vec![254, 255, 255, 255]);
    let mut five: Vec<u8> = Vec::new();
    write_compact_u32(&mut five, 1073741824);
    assert_eq!(five, vec![3, 0, 0, 0, 64]);
}

#[test]
fn compact_rejects_non_canonical_forms() {
    // two-byte form of a value that fits one byte
    assert_eq!(read_compact_u32(&[0b01, 0], 0), None);
    // four-byte form of a value that fits two bytes
    assert_eq!(read_compact_u32(&[0b10, 1, 0, 0], 0), None);
    // five-byte form of a value that fits four bytes
    assert_eq!(read_compact_u32(&[3, 255, 255, 255, 63], 0), None);
    // five-byte marker with a bad first byte
    assert_eq!(read_compact_u32(&[7, 0, 0, 0, 64], 0), None);
    // truncated two-byte form
    assert_eq!(read_compact_u32(&[0b01], 0), None);
}

#[test]
fn record_matches_reference_tuple_encoding() {
    let keys = vec![(vec![9u8, 8, 7], KeyTypeId(*b"aura"))];
    let ours = encode_session_keys(&keys);
    let reference = (*b"aura", vec![9u8, 8, 7]).encode();
    assert_eq!(ours, reference);
}

#[test]
fn round_trip_two_records() {
    let keys = vec![
        (vec![1u8; 32], KeyTypeId(*b"aura")),
        (vec![2u8; 32], KeyTypeId(*b"gran")),
    ];
    let blob = encode_session_keys(&keys);
    let decoded = decode_session_keys(blob).expect("valid bundle decodes");
    assert_eq!(decoded, keys);
}

#[test]
fn round_trip_preserves_order_and_duplicates() {
    let keys = vec![
        (vec![3u8], KeyTypeId(*b"babe")),
        (vec![], KeyTypeId(*b"babe")),
        (vec![3u8], KeyTypeId(*b"babe")),
    ];
    let blob = encode_session_keys(&keys);
    assert_eq!(decode_session_keys(blob), Some(keys));
}

#[test]
fn empty_blob_decodes_to_empty_bundle() {
    // the zero-length form is well-defined: a bundle of no records
    assert_eq!(decode_session_keys(Vec::new()), Some(Vec::new()));
    assert_eq!(encode_session_keys(&Vec::new()), Vec::<u8>::new());
}

#[test]
fn truncated_blob_returns_none() {
    let keys = vec![(vec![1u8; 32], KeyTypeId(*b"aura"))];
    let blob = encode_session_keys(&keys);
    for cut in 1..blob.len() {
        let truncated = blob[..cut].to_vec();
        assert_eq!(decode_session_keys(truncated), None, "cut at {cut}");
    }
}

#[test]
fn mutated_blob_never_panics() {
    let keys = vec![(vec![5u8; 4], KeyTypeId(*b"imon"))];
    let blob = encode_session_keys(&keys);
    for i in 0..blob.len() {
        for delta in [1u8, 128, 255] {
            let mut mutated = blob.clone();
            mutated[i] = mutated[i].wrapping_add(delta);
            // either a different valid parse or None, never a fault
            let _ = decode_session_keys(mutated);
        }
    }
}

#[test]
fn trailing_garbage_returns_none() {
    let keys = vec![(vec![1u8, 2, 3], KeyTypeId(*b"gran"))];
    let mut blob = encode_session_keys(&keys);
    blob.push(0);
    assert_eq!(decode_session_keys(blob), None);
}
