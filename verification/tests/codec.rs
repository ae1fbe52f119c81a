use cusf_sidechain::codec::{
    serialize_block, serialize_entries, serialize_header, serialize_outpoint,
    serialize_transaction, serialize_transactions,
};
use cusf_sidechain::decode::{
    decode_block, decode_header, decode_transaction, read_outpoint, read_output,
};
use cusf_sidechain::types::{Header, OutPoint, Output, Transaction};
use cusf_sidechain::unit_key::UnitKey;

fn sample_transaction() -> Transaction {
    Transaction {
        inputs: vec![
            OutPoint::Deposit { sequence_number: 7 },
            OutPoint::Regular { transaction_number: 258, output_number: 3 },
            OutPoint::Coinbase { block_number: 5, output_number: 1 },
        ],
        outputs: vec![
            Output::Regular { address: [3; 20], value: 900 },
            Output::Withdrawal { address: [5; 20], main_address: [6; 20], value: 700, fee: 50 },
        ],
    }
}

#[test]
fn outpoint_bytes_are_tag_then_little_endian_fields() {
    assert_eq!(
        serialize_outpoint(&OutPoint::Regular { transaction_number: 258, output_number: 3 }),
        vec![0, 2, 1, 0, 0, 0, 0, 0, 0, 3]
    );
    assert_eq!(
        serialize_outpoint(&OutPoint::Deposit { sequence_number: 7 }),
        vec![1, 7, 0, 0, 0, 0, 0, 0, 0]
    );
    assert_eq!(
        serialize_outpoint(&OutPoint::Coinbase { block_number: 5, output_number: 1 }),
        vec![2, 5, 0, 0, 0, 1]
    );
}

#[test]
fn transaction_bytes_are_two_length_prefixed_lists() {
    let transaction = Transaction {
        inputs: vec![OutPoint::Deposit { sequence_number: 0 }],
        outputs: vec![Output::Regular { address: [3; 20], value: 900 }],
    };
    let mut expected: Vec<u8> = vec![1, 0, 0, 0, 0, 0, 0, 0];
    expected.extend_from_slice(&[1, 0, 0, 0, 0, 0, 0, 0, 0]);
    expected.extend_from_slice(&[1, 0, 0, 0, 0, 0, 0, 0]);
    expected.push(0);
    expected.extend_from_slice(&[3; 20]);
    expected.extend_from_slice(&900u64.to_le_bytes());
    assert_eq!(serialize_transaction(&transaction), expected);
    assert_eq!(expected.len(), 54);
}

#[test]
fn withdrawal_output_takes_57_bytes() {
    let transaction = Transaction {
        inputs: vec![],
        outputs: vec![Output::Withdrawal {
            address: [5; 20],
            main_address: [6; 20],
            value: 700,
            fee: 50,
        }],
    };
    let bytes = serialize_transaction(&transaction);
    assert_eq!(bytes.len(), 8 + 8 + 57);
    assert_eq!(bytes[16], 1);
    assert_eq!(&bytes[17..37], &[5u8; 20]);
    assert_eq!(&bytes[37..57], &[6u8; 20]);
    assert_eq!(&bytes[57..65], &700u64.to_le_bytes());
    assert_eq!(&bytes[65..73], &50u64.to_le_bytes());
}

#[test]
fn transaction_round_trips() {
    let transaction = sample_transaction();
    let bytes = serialize_transaction(&transaction);
    assert_eq!(decode_transaction(&bytes), Some(transaction));
}

#[test]
fn empty_transaction_round_trips() {
    let transaction = Transaction { inputs: vec![], outputs: vec![] };
    let bytes = serialize_transaction(&transaction);
    assert_eq!(bytes, vec![0u8; 16]);
    assert_eq!(decode_transaction(&bytes), Some(transaction));
}

#[test]
fn decode_rejects_trailing_bytes() {
    let mut bytes = serialize_transaction(&sample_transaction());
    bytes.push(0);
    assert_eq!(decode_transaction(&bytes), None);
}

#[test]
fn decode_rejects_truncated_bytes() {
    let mut bytes = serialize_transaction(&sample_transaction());
    bytes.pop();
    assert_eq!(decode_transaction(&bytes), None);
    assert_eq!(decode_transaction(&[]), None);
}

#[test]
fn decode_rejects_unknown_outpoint_tag() {
    let mut bytes = serialize_transaction(&sample_transaction());
    bytes[8] = 3;
    assert_eq!(decode_transaction(&bytes), None);
    assert_eq!(read_outpoint(&[3, 0, 0, 0, 0, 0, 0, 0, 0, 0], 0), None);
}

#[test]
fn decode_rejects_unknown_output_tag() {
    let mut bytes = vec![2u8];
    bytes.extend_from_slice(&[0; 56]);
    assert_eq!(read_output(&bytes, 0), None);
}

#[test]
fn decode_rejects_a_count_beyond_the_bytes() {
    let mut bytes = vec![0xffu8; 8];
    bytes.extend_from_slice(&[0; 8]);
    assert_eq!(decode_transaction(&bytes), None);
}

#[test]
fn readers_report_where_they_stopped() {
    let bytes = [9, 1, 7, 0, 0, 0, 0, 0, 0, 0, 9];
    assert_eq!(read_outpoint(&bytes, 1), Some((OutPoint::Deposit { sequence_number: 7 }, 10)));
}

#[test]
fn header_is_64_bytes_and_round_trips() {
    let header = Header { prev_side_block_hash: [1; 32], merkle_root: [2; 32] };
    let bytes = serialize_header(&header);
    let mut expected = vec![1u8; 32];
    expected.extend_from_slice(&[2; 32]);
    assert_eq!(bytes, expected);
    assert_eq!(decode_header(&bytes), Some(header));
    assert_eq!(decode_header(&bytes[..63]), None);
}

#[test]
fn block_round_trips() {
    let header = Header { prev_side_block_hash: [0; 32], merkle_root: [9; 32] };
    let coinbase = vec![Output::Regular { address: [4; 20], value: 100 }];
    let transactions = vec![sample_transaction(), Transaction { inputs: vec![], outputs: vec![] }];
    let bytes = serialize_block(&header, &coinbase, &transactions);
    assert_eq!(decode_block(&bytes), Some((header, coinbase, transactions)));
}

#[test]
fn block_with_trailing_bytes_is_rejected() {
    let header = Header { prev_side_block_hash: [0; 32], merkle_root: [9; 32] };
    let mut bytes = serialize_block(&header, &[], &[]);
    assert_eq!(bytes.len(), 80);
    bytes.push(1);
    assert_eq!(decode_block(&bytes), None);
}

#[test]
fn list_of_transactions_starts_with_its_length() {
    let transactions = vec![sample_transaction(), sample_transaction()];
    let bytes = serialize_transactions(&transactions);
    let one = serialize_transaction(&sample_transaction());
    assert_eq!(&bytes[..8], &2u64.to_le_bytes());
    assert_eq!(bytes.len(), 8 + 2 * one.len());
    assert_eq!(&bytes[8..8 + one.len()], &one[..]);
}

#[test]
fn entries_are_outpoint_then_output() {
    let entries = vec![(
        OutPoint::Deposit { sequence_number: 1 },
        Output::Regular { address: [2; 20], value: 500 },
    )];
    let bytes = serialize_entries(&entries);
    assert_eq!(bytes.len(), 8 + 9 + 29);
    assert_eq!(&bytes[..8], &1u64.to_le_bytes());
    assert_eq!(bytes[8], 1);
    assert_eq!(bytes[17], 0);
}

#[test]
fn unit_key_is_one_zero_byte() {
    assert_eq!(UnitKey.to_bytes(), vec![0u8]);
    assert_eq!(UnitKey::from_bytes(&[0]), Some(UnitKey));
    assert_eq!(UnitKey::from_bytes(&[0x55]), Some(UnitKey));
    assert_eq!(UnitKey::from_bytes(&[]), None);
    assert_eq!(UnitKey::from_bytes(&[0, 0]), None);
}
