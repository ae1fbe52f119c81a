use cusf_sidechain::types::{bytes_equal, Deposit, Error, OutPoint, Output, Transaction};

#[test]
fn total_value_of_withdrawal_adds_fee() {
    let output = Output::Withdrawal { address: [5; 20], main_address: [6; 20], value: 700, fee: 50 };
    assert_eq!(output.total_value(), 750);
    assert_eq!(output.address(), [5; 20]);
}

#[test]
fn value_out_sums_outputs() {
    let transaction = Transaction {
        inputs: vec![OutPoint::Deposit { sequence_number: 0 }],
        outputs: vec![
            Output::Regular { address: [3; 20], value: 900 },
            Output::Withdrawal { address: [5; 20], main_address: [6; 20], value: 70, fee: 5 },
        ],
    };
    assert_eq!(transaction.value_out(), 975);
}

#[test]
fn total_value_of_regular_is_its_value() {
    let output = Output::Regular { address: [1; 20], value: 1000 };
    assert_eq!(output.total_value(), 1000);
    assert_eq!(output.checked_total_value(), Some(1000));
    assert_eq!(output.address(), [1; 20]);
}

#[test]
fn checked_total_value_says_when_the_sum_leaves_64_bits() {
    let fits =
        Output::Withdrawal { address: [5; 20], main_address: [6; 20], value: u64::MAX - 1, fee: 1 };
    assert_eq!(fits.checked_total_value(), Some(u64::MAX));
    let beyond =
        Output::Withdrawal { address: [5; 20], main_address: [6; 20], value: u64::MAX, fee: 1 };
    assert_eq!(beyond.checked_total_value(), None);
}

#[test]
fn checked_value_out_says_when_the_sum_leaves_64_bits() {
    let transaction = Transaction {
        inputs: vec![],
        outputs: vec![
            Output::Regular { address: [1; 20], value: u64::MAX },
            Output::Regular { address: [1; 20], value: 1 },
        ],
    };
    assert_eq!(transaction.checked_value_out(), None);
    let empty = Transaction { inputs: vec![], outputs: vec![] };
    assert_eq!(empty.checked_value_out(), Some(0));
    assert_eq!(empty.value_out(), 0);
}

#[test]
fn duplicate_is_an_equal_transaction() {
    let transaction = Transaction {
        inputs: vec![OutPoint::Coinbase { block_number: 3, output_number: 2 }],
        outputs: vec![Output::Regular { address: [1; 20], value: 5 }],
    };
    assert_eq!(transaction.duplicate(), transaction);
}

#[test]
fn deposit_is_a_regular_output_at_a_deposit_outpoint() {
    let deposit = Deposit { sequence_number: 4, address: [9; 20], value: 77 };
    assert_eq!(deposit.outpoint(), OutPoint::Deposit { sequence_number: 4 });
    assert_eq!(deposit.output(), Output::Regular { address: [9; 20], value: 77 });
}

#[test]
fn byte_arrays_compare_by_their_bytes() {
    let mut other = [7u8; 32];
    assert!(bytes_equal(&[7u8; 32], &other));
    other[31] = 8;
    assert!(!bytes_equal(&[7u8; 32], &other));
}

#[test]
fn each_error_has_its_words() {
    assert_eq!(Error::InvalidTransaction.message(), "transaction is invalid");
    assert_eq!(Error::InvalidMainHeight.message(), "invalid main block height");
    assert_eq!(Error::NotInMempool.message(), "mempool transaction doesn't exist");
    let all = [
        Error::InvalidTransaction,
        Error::InvalidBlock,
        Error::OutputLimit,
        Error::NotBmmCommitted,
        Error::WrongPrev,
        Error::InvalidMainHeight,
        Error::BundlePending,
        Error::StoreFailure,
        Error::NotInMempool,
    ];
    for (i, error) in all.iter().enumerate() {
        assert!(!error.message().is_empty());
        for other in &all[..i] {
            assert_ne!(error.message(), other.message());
        }
    }
}
