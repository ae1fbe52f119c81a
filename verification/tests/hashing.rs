use cusf_sidechain::codec::{serialize_header, serialize_transaction};
use cusf_sidechain::decode::decode_header;
use cusf_sidechain::hashing::{compute_merkle_root, Hashable};
use cusf_sidechain::types::{Header, OutPoint, Output, Transaction};

fn spend(sequence_number: u64, value: u64) -> Transaction {
    Transaction {
        inputs: vec![OutPoint::Deposit { sequence_number }],
        outputs: vec![Output::Regular { address: [3; 20], value }],
    }
}

#[test]
fn merkle_root_of_no_transactions_is_the_digest_of_nothing() {
    let expected: [u8; 32] = [
        0xaf, 0x13, 0x49, 0xb9, 0xf5, 0xf9, 0xa1, 0xa6, 0xa0, 0x40, 0x4d, 0xea, 0x36, 0xdc, 0xc9,
        0x49, 0x9b, 0xcb, 0x25, 0xc9, 0xad, 0xc1, 0x12, 0xb7, 0xcc, 0x9a, 0x93, 0xca, 0xe4, 0x1f,
        0x32, 0x62,
    ];
    assert_eq!(compute_merkle_root(&[]), expected);
}

#[test]
fn header_hash_is_blake3_of_its_bytes() {
    let header = Header { prev_side_block_hash: [1; 32], merkle_root: [2; 32] };
    let expected: [u8; 32] = blake3::hash(&serialize_header(&header)).into();
    assert_eq!(header.hash(), expected);
    assert_ne!(header.hash(), header.prev_side_block_hash);
}

#[test]
fn transaction_hash_is_blake3_of_its_bytes() {
    let transaction = spend(0, 900);
    let expected: [u8; 32] = blake3::hash(&serialize_transaction(&transaction)).into();
    assert_eq!(transaction.hash(), expected);
}

#[test]
fn reserialized_header_hashes_the_same() {
    let header = Header { prev_side_block_hash: [7; 32], merkle_root: [8; 32] };
    let bytes = serialize_header(&header);
    let again = decode_header(&bytes).unwrap();
    assert_eq!(serialize_header(&again), bytes);
    assert_eq!(again.hash(), header.hash());
}

#[test]
fn different_headers_hash_differently() {
    let a = Header { prev_side_block_hash: [0; 32], merkle_root: [1; 32] };
    let b = Header { prev_side_block_hash: [0; 32], merkle_root: [2; 32] };
    assert_ne!(a.hash(), b.hash());
}

#[test]
fn merkle_root_is_the_digest_of_the_concatenated_hashes() {
    let transactions = vec![spend(0, 900), spend(1, 400)];
    let mut hashes: Vec<u8> = Vec::new();
    hashes.extend_from_slice(&transactions[0].hash());
    hashes.extend_from_slice(&transactions[1].hash());
    let expected: [u8; 32] = blake3::hash(&hashes).into();
    assert_eq!(compute_merkle_root(&transactions), expected);
}

#[test]
fn header_validates_its_own_transactions_only() {
    let transactions = vec![spend(0, 900), spend(1, 400)];
    let header = Header {
        prev_side_block_hash: [0; 32],
        merkle_root: compute_merkle_root(&transactions),
    };
    assert!(header.validate_transactions(&transactions));
    assert!(!header.validate_transactions(&transactions[..1]));
    let swapped = vec![spend(1, 400), spend(0, 900)];
    assert!(!header.validate_transactions(&swapped));
}
