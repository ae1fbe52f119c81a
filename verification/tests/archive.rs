use cusf_sidechain::archive::Archive;
use cusf_sidechain::hashing::Hashable;
use cusf_sidechain::types::{Error, Header, OutPoint, Output, Transaction};

fn spend(sequence_number: u64, value: u64) -> Transaction {
    Transaction {
        inputs: vec![OutPoint::Deposit { sequence_number }],
        outputs: vec![Output::Regular { address: [3; 20], value }],
    }
}

fn header(prev: [u8; 32], root: u8) -> Header {
    Header { prev_side_block_hash: prev, merkle_root: [root; 32] }
}

#[test]
fn new_archive_has_no_tip() {
    let archive = Archive::new();
    assert_eq!(archive.get_chain_tip(), None);
    assert_eq!(archive.get_coinbase(0), None);
    assert_eq!(archive.get_coinbase(1), None);
    assert_eq!(archive.get_transactions(1), None);
    assert_eq!(archive.get_header(1), None);
    assert_eq!(archive.transaction_count(), 0);
}

#[test]
fn add_bmm_hashes_is_idempotent() {
    let mut archive = Archive::new();
    assert!(!archive.is_bmm_committed(&[1; 32]));
    archive.add_bmm_hashes(&[[1; 32], [2; 32], [1; 32]]);
    archive.add_bmm_hashes(&[[1; 32]]);
    assert!(archive.is_bmm_committed(&[1; 32]));
    assert!(archive.is_bmm_committed(&[2; 32]));
    assert!(!archive.is_bmm_committed(&[3; 32]));
}

#[test]
fn validate_header_wants_a_commitment() {
    let mut archive = Archive::new();
    let genesis_child = header([0; 32], 1);
    assert_eq!(archive.validate_header(&genesis_child), Err(Error::NotBmmCommitted));
    archive.add_bmm_hashes(&[genesis_child.hash()]);
    assert_eq!(archive.validate_header(&genesis_child), Ok(()));
}

#[test]
fn validate_header_wants_the_tip_as_predecessor() {
    let mut archive = Archive::new();
    let first = header([0; 32], 1);
    let stray = header([7; 32], 1);
    archive.add_bmm_hashes(&[first.hash(), stray.hash()]);
    assert_eq!(archive.validate_header(&stray), Err(Error::WrongPrev));
    assert_eq!(archive.connect(first, &[], &[]), Ok(()));
    assert_eq!(archive.validate_header(&first), Err(Error::WrongPrev));
    let second = header(first.hash(), 2);
    assert_eq!(archive.validate_header(&second), Err(Error::NotBmmCommitted));
    archive.add_bmm_hashes(&[second.hash()]);
    assert_eq!(archive.validate_header(&second), Ok(()));
}

#[test]
fn connect_numbers_blocks_from_one_and_transactions_from_zero() {
    let mut archive = Archive::new();
    let first = header([0; 32], 1);
    let coinbase = vec![Output::Regular { address: [4; 20], value: 100 }];
    assert_eq!(archive.connect(first, &coinbase, &[spend(0, 900), spend(1, 400)]), Ok(()));
    assert_eq!(archive.get_chain_tip(), Some((1, (first, (0, 2)))));
    assert_eq!(archive.get_coinbase(1), Some(coinbase));
    assert_eq!(archive.get_transactions(1), Some(vec![spend(0, 900), spend(1, 400)]));
    let second = header(first.hash(), 2);
    assert_eq!(archive.connect(second, &[], &[]), Ok(()));
    assert_eq!(archive.get_chain_tip(), Some((2, (second, (2, 2)))));
    let third = header(second.hash(), 3);
    assert_eq!(archive.connect(third, &[], &[spend(2, 1)]), Ok(()));
    assert_eq!(archive.get_chain_tip(), Some((3, (third, (2, 3)))));
    assert_eq!(archive.get_header(1), Some((first, (0, 2))));
    assert_eq!(archive.get_header(2), Some((second, (2, 2))));
    assert_eq!(archive.get_header(4), None);
    assert_eq!(archive.get_header(0), None);
    assert_eq!(archive.get_coinbase(2), Some(vec![]));
    assert_eq!(archive.get_transactions(2), Some(vec![]));
    assert_eq!(archive.get_transactions(3), Some(vec![spend(2, 1)]));
    assert_eq!(archive.transaction_count(), 3);
}

#[test]
fn disconnect_removes_the_newest_blocks_and_their_transactions() {
    let mut archive = Archive::new();
    let first = header([0; 32], 1);
    let second = header(first.hash(), 2);
    let third = header(second.hash(), 3);
    archive.add_bmm_hashes(&[first.hash()]);
    assert_eq!(archive.connect(first, &[], &[spend(0, 900)]), Ok(()));
    assert_eq!(archive.connect(second, &[], &[spend(1, 400), spend(2, 1)]), Ok(()));
    assert_eq!(archive.connect(third, &[], &[spend(3, 1)]), Ok(()));
    assert_eq!(archive.disconnect(2), Ok(()));
    assert_eq!(archive.get_chain_tip(), Some((1, (first, (0, 1)))));
    assert_eq!(archive.transaction_count(), 1);
    assert_eq!(archive.get_coinbase(2), None);
    assert!(archive.is_bmm_committed(&first.hash()));
    assert_eq!(archive.disconnect(0), Ok(()));
    assert_eq!(archive.get_chain_tip(), Some((1, (first, (0, 1)))));
    assert_eq!(archive.disconnect(1), Ok(()));
    assert_eq!(archive.get_chain_tip(), None);
    assert_eq!(archive.transaction_count(), 0);
}

#[test]
fn disconnect_refuses_more_blocks_than_archived() {
    let mut archive = Archive::new();
    assert_eq!(archive.disconnect(1), Err(Error::StoreFailure));
    let first = header([0; 32], 1);
    assert_eq!(archive.connect(first, &[], &[spend(0, 900)]), Ok(()));
    assert_eq!(archive.disconnect(2), Err(Error::StoreFailure));
    assert_eq!(archive.get_chain_tip(), Some((1, (first, (0, 1)))));
}

#[test]
fn connect_then_disconnect_gives_the_archive_back() {
    let mut archive = Archive::new();
    let first = header([0; 32], 1);
    assert_eq!(archive.connect(first, &[], &[spend(0, 900)]), Ok(()));
    let second = header(first.hash(), 2);
    let coinbase = vec![Output::Regular { address: [4; 20], value: 1 }];
    assert_eq!(archive.connect(second, &coinbase, &[spend(1, 400)]), Ok(()));
    assert_eq!(archive.disconnect(1), Ok(()));
    assert_eq!(archive.get_chain_tip(), Some((1, (first, (0, 1)))));
    assert_eq!(archive.get_transactions(1), Some(vec![spend(0, 900)]));
    assert_eq!(archive.get_coinbase(1), Some(vec![]));
    assert_eq!(archive.get_header(2), None);
    assert_eq!(archive.transaction_count(), 1);
}
