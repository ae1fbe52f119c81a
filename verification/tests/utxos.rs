use cusf_sidechain::types::{Error, OutPoint, Output, Transaction};
use cusf_sidechain::utxos::{check_no_double_spend, Utxos};

fn deposit(sequence_number: u64) -> OutPoint {
    OutPoint::Deposit { sequence_number }
}

fn regular(byte: u8, value: u64) -> Output {
    Output::Regular { address: [byte; 20], value }
}

fn withdrawal(value: u64, fee: u64) -> Output {
    Output::Withdrawal { address: [5; 20], main_address: [6; 20], value, fee }
}

fn funded() -> Utxos {
    let mut utxos = Utxos::new();
    utxos.add_utxo(&deposit(0), &regular(1, 1000));
    utxos.add_utxo(&deposit(1), &regular(2, 500));
    utxos
}

fn sorted(mut entries: Vec<(OutPoint, Output)>) -> Vec<String> {
    let mut lines: Vec<String> = entries.drain(..).map(|e| format!("{:?}", e)).collect();
    lines.sort();
    lines
}

#[test]
fn new_store_is_empty_with_zero_cursors() {
    let utxos = Utxos::new();
    assert!(utxos.is_empty());
    assert_eq!(utxos.get_utxo_set(), vec![]);
    assert_eq!(utxos.get_main_block_height(), 0);
    assert_eq!(utxos.get_main_chain_tip(), [0u8; 32]);
    assert_eq!(utxos.get_side_block_height(), 0);
    assert_eq!(utxos.get_transaction_number(), 0);
}

#[test]
fn add_utxo_replaces_and_remove_utxo_deletes() {
    let mut utxos = funded();
    utxos.add_utxo(&deposit(0), &regular(9, 7));
    assert_eq!(utxos.get_utxo(&deposit(0)), Some(regular(9, 7)));
    assert_eq!(utxos.get_utxo_set().len(), 2);
    utxos.remove_utxo(&deposit(0));
    assert_eq!(utxos.get_utxo(&deposit(0)), None);
    utxos.remove_utxo(&deposit(0));
    assert_eq!(utxos.get_utxo_set(), vec![(deposit(1), regular(2, 500))]);
    assert!(!utxos.is_empty());
}

#[test]
fn cursors_are_set_and_read_back() {
    let mut utxos = Utxos::new();
    utxos.set_main_block_height(100);
    utxos.set_main_chain_tip(&[0xaa; 32]);
    utxos.set_side_block_height(3);
    assert_eq!(utxos.get_main_block_height(), 100);
    assert_eq!(utxos.get_main_chain_tip(), [0xaa; 32]);
    assert_eq!(utxos.get_side_block_height(), 3);
}

#[test]
fn fee_is_inputs_minus_outputs() {
    let utxos = funded();
    let transaction = Transaction {
        inputs: vec![deposit(0), deposit(1)],
        outputs: vec![regular(3, 900), withdrawal(400, 50)],
    };
    assert_eq!(utxos.get_transaction_fee(&transaction), Ok(150));
}

#[test]
fn fee_of_exact_spend_is_zero() {
    let utxos = funded();
    let transaction = Transaction { inputs: vec![deposit(1)], outputs: vec![regular(3, 500)] };
    assert_eq!(utxos.get_transaction_fee(&transaction), Ok(0));
}

#[test]
fn fee_fails_on_missing_input() {
    let utxos = funded();
    let transaction = Transaction { inputs: vec![deposit(2)], outputs: vec![] };
    assert_eq!(utxos.get_transaction_fee(&transaction), Err(Error::InvalidTransaction));
}

#[test]
fn fee_fails_when_outputs_exceed_inputs() {
    let utxos = funded();
    let transaction = Transaction { inputs: vec![deposit(1)], outputs: vec![regular(3, 501)] };
    assert_eq!(utxos.get_transaction_fee(&transaction), Err(Error::InvalidTransaction));
}

#[test]
fn fee_fails_when_amounts_leave_64_bits() {
    let mut utxos = Utxos::new();
    utxos.add_utxo(&deposit(0), &regular(1, u64::MAX));
    utxos.add_utxo(&deposit(1), &regular(1, 1));
    let both = Transaction { inputs: vec![deposit(0), deposit(1)], outputs: vec![] };
    assert_eq!(utxos.get_transaction_fee(&both), Err(Error::InvalidTransaction));
    let outputs = Transaction {
        inputs: vec![deposit(0)],
        outputs: vec![withdrawal(u64::MAX, 1)],
    };
    assert_eq!(utxos.get_transaction_fee(&outputs), Err(Error::InvalidTransaction));
    let one = Transaction { inputs: vec![deposit(0)], outputs: vec![regular(1, u64::MAX)] };
    assert_eq!(utxos.get_transaction_fee(&one), Ok(0));
}

#[test]
fn validate_accepts_coinbase_equal_to_fees() {
    let utxos = funded();
    let transactions = vec![
        Transaction { inputs: vec![deposit(0)], outputs: vec![regular(3, 900)] },
        Transaction { inputs: vec![deposit(1)], outputs: vec![regular(3, 450)] },
    ];
    assert!(utxos.validate(&[regular(4, 100), regular(4, 50)], &transactions));
    assert!(utxos.validate(&[], &transactions));
    assert!(utxos.validate(&[], &[]));
}

#[test]
fn validate_rejects_coinbase_above_fees() {
    let utxos = funded();
    let transactions =
        vec![Transaction { inputs: vec![deposit(0)], outputs: vec![regular(3, 900)] }];
    assert!(!utxos.validate(&[regular(4, 101)], &transactions));
    assert!(!utxos.validate(&[regular(4, 1)], &[]));
}

#[test]
fn validate_rejects_double_spend_across_transactions() {
    let utxos = funded();
    let transactions = vec![
        Transaction { inputs: vec![deposit(0)], outputs: vec![regular(3, 900)] },
        Transaction { inputs: vec![deposit(0)], outputs: vec![regular(3, 800)] },
    ];
    assert!(!utxos.validate(&[], &transactions));
    assert!(!check_no_double_spend(&transactions));
}

#[test]
fn validate_rejects_double_spend_within_a_transaction() {
    let utxos = funded();
    let transactions = vec![Transaction {
        inputs: vec![deposit(0), deposit(0)],
        outputs: vec![regular(3, 900)],
    }];
    assert!(!utxos.validate(&[], &transactions));
}

#[test]
fn validate_rejects_missing_input_and_overspend() {
    let utxos = funded();
    let missing = vec![Transaction { inputs: vec![deposit(9)], outputs: vec![] }];
    assert!(!utxos.validate(&[], &missing));
    let overspend =
        vec![Transaction { inputs: vec![deposit(1)], outputs: vec![regular(3, 501)] }];
    assert!(!utxos.validate(&[], &overspend));
}

#[test]
fn validate_leaves_the_store_as_it_was() {
    let utxos = funded();
    let before = sorted(utxos.get_utxo_set());
    let transactions =
        vec![Transaction { inputs: vec![deposit(0)], outputs: vec![regular(3, 900)] }];
    assert!(utxos.validate(&[regular(4, 100)], &transactions));
    assert_eq!(sorted(utxos.get_utxo_set()), before);
}

#[test]
fn connect_emits_coinbase_then_transactions() {
    let mut utxos = funded();
    let transactions = vec![
        Transaction { inputs: vec![deposit(0)], outputs: vec![regular(3, 900)] },
        Transaction { inputs: vec![deposit(1)], outputs: vec![regular(7, 200), withdrawal(250, 25)] },
    ];
    assert_eq!(utxos.connect(1, &[regular(4, 100)], &transactions), Ok(()));
    let expected = vec![
        (OutPoint::Coinbase { block_number: 1, output_number: 0 }, regular(4, 100)),
        (OutPoint::Regular { transaction_number: 0, output_number: 0 }, regular(3, 900)),
        (OutPoint::Regular { transaction_number: 1, output_number: 0 }, regular(7, 200)),
        (OutPoint::Regular { transaction_number: 1, output_number: 1 }, withdrawal(250, 25)),
    ];
    assert_eq!(sorted(utxos.get_utxo_set()), sorted(expected));
    assert_eq!(utxos.get_transaction_number(), 2);
    assert_eq!(utxos.get_side_block_height(), 1);
    assert_eq!(
        utxos.get_unlocked_withdrawals(),
        vec![OutPoint::Regular { transaction_number: 1, output_number: 1 }]
    );
    assert_eq!(utxos.get_locked_withdrawals(), vec![]);
}

#[test]
fn second_block_continues_the_transaction_numbers() {
    let mut utxos = funded();
    let first = vec![Transaction { inputs: vec![deposit(0)], outputs: vec![regular(3, 900)] }];
    assert_eq!(utxos.connect(1, &[], &first), Ok(()));
    let second = vec![Transaction {
        inputs: vec![OutPoint::Regular { transaction_number: 0, output_number: 0 }],
        outputs: vec![regular(8, 850)],
    }];
    assert_eq!(utxos.connect(2, &[regular(4, 50)], &second), Ok(()));
    let expected = vec![
        (deposit(1), regular(2, 500)),
        (OutPoint::Regular { transaction_number: 1, output_number: 0 }, regular(8, 850)),
        (OutPoint::Coinbase { block_number: 2, output_number: 0 }, regular(4, 50)),
    ];
    assert_eq!(sorted(utxos.get_utxo_set()), sorted(expected));
    assert_eq!(utxos.get_side_block_height(), 2);
    assert_eq!(utxos.get_transaction_number(), 2);
}

#[test]
fn connect_accepts_256_outputs() {
    let mut utxos = funded();
    let coinbase = vec![regular(4, 0); 256];
    let transactions =
        vec![Transaction { inputs: vec![deposit(0)], outputs: vec![regular(3, 1); 256] }];
    assert_eq!(utxos.check_connect(&coinbase, &transactions), Ok(()));
    assert_eq!(utxos.connect(1, &coinbase, &transactions), Ok(()));
    assert_eq!(utxos.get_utxo_set().len(), 1 + 256 + 256);
    assert_eq!(
        utxos.get_utxo(&OutPoint::Regular { transaction_number: 0, output_number: 255 }),
        Some(regular(3, 1))
    );
    assert_eq!(
        utxos.get_utxo(&OutPoint::Coinbase { block_number: 1, output_number: 255 }),
        Some(regular(4, 0))
    );
}

#[test]
fn connect_refuses_257_coinbase_outputs() {
    let mut utxos = funded();
    let before = sorted(utxos.get_utxo_set());
    let coinbase = vec![regular(4, 0); 257];
    assert_eq!(utxos.connect(1, &coinbase, &[]), Err(Error::OutputLimit));
    assert_eq!(sorted(utxos.get_utxo_set()), before);
    assert_eq!(utxos.get_side_block_height(), 0);
}

#[test]
fn connect_refuses_257_transaction_outputs() {
    let mut utxos = funded();
    let before = sorted(utxos.get_utxo_set());
    let transactions = vec![
        Transaction { inputs: vec![deposit(0)], outputs: vec![regular(3, 900)] },
        Transaction { inputs: vec![deposit(1)], outputs: vec![regular(3, 1); 257] },
    ];
    assert_eq!(utxos.connect(1, &[regular(4, 100)], &transactions), Err(Error::OutputLimit));
    assert_eq!(sorted(utxos.get_utxo_set()), before);
    assert_eq!(utxos.get_transaction_number(), 0);
    assert_eq!(utxos.get_side_block_height(), 0);
}

#[test]
fn disconnect_restores_the_store() {
    let mut utxos = funded();
    let before = sorted(utxos.get_utxo_set());
    let coinbase = vec![regular(4, 100)];
    let transactions = vec![
        Transaction { inputs: vec![deposit(0)], outputs: vec![regular(3, 900)] },
        Transaction { inputs: vec![deposit(1)], outputs: vec![withdrawal(400, 100)] },
    ];
    assert_eq!(utxos.connect(1, &coinbase, &transactions), Ok(()));
    assert_ne!(sorted(utxos.get_utxo_set()), before);
    assert_eq!(utxos.disconnect(1, &coinbase, &transactions), Ok(()));
    assert_eq!(sorted(utxos.get_utxo_set()), before);
    assert_eq!(utxos.get_transaction_number(), 0);
    assert_eq!(utxos.get_side_block_height(), 0);
    assert_eq!(utxos.get_unlocked_withdrawals(), vec![]);
    assert_eq!(utxos.get_locked_withdrawals(), vec![]);
}

#[test]
fn disconnect_restores_what_a_block_overwrote() {
    let mut utxos = funded();
    let squatter = OutPoint::Coinbase { block_number: 1, output_number: 0 };
    utxos.add_utxo(&squatter, &regular(9, 9));
    let before = sorted(utxos.get_utxo_set());
    assert_eq!(utxos.connect(1, &[regular(4, 0)], &[]), Ok(()));
    assert_eq!(utxos.get_utxo(&squatter), Some(regular(4, 0)));
    assert_eq!(utxos.disconnect(1, &[regular(4, 0)], &[]), Ok(()));
    assert_eq!(sorted(utxos.get_utxo_set()), before);
}

#[test]
fn disconnect_refuses_another_block_than_the_newest() {
    let mut utxos = funded();
    let transactions =
        vec![Transaction { inputs: vec![deposit(0)], outputs: vec![regular(3, 900)] }];
    assert_eq!(utxos.disconnect(1, &[], &transactions), Err(Error::StoreFailure));
    assert_eq!(utxos.connect(1, &[], &transactions), Ok(()));
    let after = sorted(utxos.get_utxo_set());
    assert_eq!(utxos.disconnect(2, &[], &transactions), Err(Error::StoreFailure));
    assert_eq!(utxos.disconnect(1, &[regular(4, 0)], &transactions), Err(Error::StoreFailure));
    assert_eq!(utxos.disconnect(1, &[], &[]), Err(Error::StoreFailure));
    assert_eq!(sorted(utxos.get_utxo_set()), after);
    assert_eq!(utxos.get_side_block_height(), 1);
}

#[test]
fn two_blocks_disconnect_in_reverse() {
    let mut utxos = funded();
    let before = sorted(utxos.get_utxo_set());
    let first = vec![Transaction { inputs: vec![deposit(0)], outputs: vec![regular(3, 900)] }];
    assert_eq!(utxos.connect(1, &[], &first), Ok(()));
    let middle = sorted(utxos.get_utxo_set());
    let second = vec![Transaction {
        inputs: vec![OutPoint::Regular { transaction_number: 0, output_number: 0 }],
        outputs: vec![regular(8, 850)],
    }];
    assert_eq!(utxos.connect(2, &[], &second), Ok(()));
    assert_eq!(utxos.disconnect(2, &[], &second), Ok(()));
    assert_eq!(sorted(utxos.get_utxo_set()), middle);
    assert_eq!(utxos.disconnect(1, &[], &first), Ok(()));
    assert_eq!(sorted(utxos.get_utxo_set()), before);
}

fn with_withdrawals(fees: &[u64]) -> Utxos {
    let mut utxos = Utxos::new();
    let outputs: Vec<Output> = fees.iter().map(|fee| withdrawal(100, *fee)).collect();
    let transactions = vec![Transaction { inputs: vec![], outputs }];
    assert_eq!(utxos.connect(1, &[], &transactions), Ok(()));
    utxos
}

fn at(output_number: u8) -> OutPoint {
    OutPoint::Regular { transaction_number: 0, output_number }
}

#[test]
fn collect_withdrawals_locks_the_unlocked() {
    let mut utxos = with_withdrawals(&[50]);
    assert_eq!(utxos.get_unlocked_withdrawals(), vec![at(0)]);
    assert_eq!(utxos.collect_withdrawals(), Ok(()));
    assert_eq!(utxos.get_unlocked_withdrawals(), vec![]);
    assert_eq!(utxos.get_locked_withdrawals(), vec![at(0)]);
    assert_eq!(utxos.get_pending_withdrawal_bundle(), vec![(at(0), withdrawal(100, 50))]);
}

#[test]
fn collect_withdrawals_refuses_while_a_bundle_is_locked() {
    let mut utxos = with_withdrawals(&[50]);
    assert_eq!(utxos.collect_withdrawals(), Ok(()));
    assert_eq!(utxos.collect_withdrawals(), Err(Error::BundlePending));
    assert_eq!(utxos.get_locked_withdrawals(), vec![at(0)]);
}

#[test]
fn collect_withdrawals_fails_on_a_spent_withdrawal() {
    let mut utxos = with_withdrawals(&[50, 60]);
    utxos.remove_utxo(&at(1));
    assert_eq!(utxos.collect_withdrawals(), Err(Error::StoreFailure));
    assert_eq!(utxos.get_locked_withdrawals(), vec![]);
    assert_eq!(utxos.get_unlocked_withdrawals().len(), 2);
}

#[test]
fn collect_withdrawals_on_nothing_locks_nothing() {
    let mut utxos = funded();
    assert_eq!(utxos.collect_withdrawals(), Ok(()));
    assert_eq!(utxos.get_locked_withdrawals(), vec![]);
    assert_eq!(utxos.get_pending_withdrawal_bundle(), vec![]);
}

#[test]
fn bundle_takes_6000_and_leaves_the_excess_unlocked() {
    let mut utxos = Utxos::new();
    let mut transactions: Vec<Transaction> = Vec::new();
    let mut fee: u64 = 10_000;
    let mut made = 0;
    while made < 6001 {
        let mut outputs: Vec<Output> = Vec::new();
        while outputs.len() < 256 && made < 6001 {
            outputs.push(withdrawal(1, fee));
            fee -= 1;
            made += 1;
        }
        transactions.push(Transaction { inputs: vec![], outputs });
    }
    assert_eq!(utxos.connect(1, &[], &transactions), Ok(()));
    assert_eq!(utxos.get_unlocked_withdrawals().len(), 6001);
    assert_eq!(utxos.collect_withdrawals(), Ok(()));
    assert_eq!(utxos.get_locked_withdrawals().len(), 6000);
    let left = utxos.get_unlocked_withdrawals();
    assert_eq!(left, vec![OutPoint::Regular { transaction_number: 0, output_number: 0 }]);
    assert_eq!(utxos.get_utxo(&left[0]), Some(withdrawal(1, 10_000)));
}

#[test]
fn bundle_of_exactly_6000_takes_all() {
    let mut utxos = Utxos::new();
    let mut transactions: Vec<Transaction> = Vec::new();
    let mut made = 0;
    while made < 6000 {
        let mut outputs: Vec<Output> = Vec::new();
        while outputs.len() < 250 {
            outputs.push(withdrawal(1, made));
            made += 1;
        }
        transactions.push(Transaction { inputs: vec![], outputs });
    }
    assert_eq!(utxos.connect(1, &[], &transactions), Ok(()));
    assert_eq!(utxos.collect_withdrawals(), Ok(()));
    assert_eq!(utxos.get_locked_withdrawals().len(), 6000);
    assert_eq!(utxos.get_unlocked_withdrawals(), vec![]);
}

#[test]
fn submit_bundle_changes_nothing() {
    let mut utxos = with_withdrawals(&[50]);
    assert_eq!(utxos.collect_withdrawals(), Ok(()));
    let before = sorted(utxos.get_utxo_set());
    utxos.submit_bundle(&[9; 32]);
    assert_eq!(sorted(utxos.get_utxo_set()), before);
    assert_eq!(utxos.get_locked_withdrawals(), vec![at(0)]);
}

#[test]
fn succeed_bundle_removes_the_locked_withdrawals() {
    let mut utxos = with_withdrawals(&[50, 60]);
    utxos.add_utxo(&deposit(0), &regular(1, 1000));
    assert_eq!(utxos.collect_withdrawals(), Ok(()));
    utxos.succeed_bundle(&[9; 32]);
    assert_eq!(utxos.get_utxo_set(), vec![(deposit(0), regular(1, 1000))]);
    assert_eq!(utxos.get_locked_withdrawals(), vec![]);
    assert_eq!(utxos.get_unlocked_withdrawals(), vec![]);
}

#[test]
fn fail_bundle_refunds_value_and_fee_at_the_same_outpoint() {
    let mut utxos = Utxos::new();
    let transactions = vec![Transaction { inputs: vec![], outputs: vec![withdrawal(700, 50)] }];
    assert_eq!(utxos.connect(1, &[], &transactions), Ok(()));
    assert_eq!(utxos.collect_withdrawals(), Ok(()));
    assert!(utxos.bundle_is_refundable());
    assert_eq!(utxos.fail_bundle(&[9; 32]), Ok(()));
    assert_eq!(utxos.get_utxo_set(), vec![(at(0), regular(5, 750))]);
    assert_eq!(utxos.get_locked_withdrawals(), vec![]);
    assert_eq!(utxos.get_unlocked_withdrawals(), vec![]);
}

#[test]
fn fail_bundle_fails_where_a_refund_leaves_64_bits() {
    let mut utxos = Utxos::new();
    let transactions =
        vec![Transaction { inputs: vec![], outputs: vec![withdrawal(u64::MAX, 1)] }];
    assert_eq!(utxos.connect(1, &[], &transactions), Ok(()));
    assert_eq!(utxos.collect_withdrawals(), Ok(()));
    assert!(!utxos.bundle_is_refundable());
    assert_eq!(utxos.fail_bundle(&[9; 32]), Err(Error::StoreFailure));
    assert_eq!(utxos.get_locked_withdrawals(), vec![at(0)]);
    assert_eq!(utxos.get_utxo(&at(0)), Some(withdrawal(u64::MAX, 1)));
}

#[test]
fn unlocked_and_locked_never_share_an_outpoint() {
    let mut utxos = with_withdrawals(&[3, 1, 2]);
    assert_eq!(utxos.collect_withdrawals(), Ok(()));
    let more = vec![Transaction { inputs: vec![], outputs: vec![withdrawal(5, 5)] }];
    assert_eq!(utxos.connect(2, &[], &more), Ok(()));
    let unlocked = utxos.get_unlocked_withdrawals();
    let locked = utxos.get_locked_withdrawals();
    assert_eq!(unlocked, vec![OutPoint::Regular { transaction_number: 1, output_number: 0 }]);
    assert_eq!(locked.len(), 3);
    assert!(unlocked.iter().all(|p| !locked.contains(p)));
}

#[test]
fn extract_input_addresses_lists_the_owners() {
    let utxos = funded();
    let transactions = vec![
        Transaction { inputs: vec![deposit(1), deposit(0)], outputs: vec![] },
        Transaction { inputs: vec![deposit(1)], outputs: vec![] },
    ];
    assert_eq!(
        utxos.extract_input_addresses(&transactions),
        Ok(vec![[2u8; 20], [1u8; 20], [2u8; 20]])
    );
    let missing = vec![Transaction { inputs: vec![deposit(5)], outputs: vec![] }];
    assert_eq!(utxos.extract_input_addresses(&missing), Err(Error::InvalidTransaction));
}
