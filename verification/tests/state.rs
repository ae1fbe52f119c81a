use cusf_sidechain::hashing::{compute_merkle_root, Hashable};
use cusf_sidechain::state::State;
use cusf_sidechain::types::{
    Deposit, Error, Header, MainBlock, OutPoint, Output, Transaction, WithdrawalBundleEvent,
    WithdrawalBundleEventType,
};

fn regular(byte: u8, value: u64) -> Output {
    Output::Regular { address: [byte; 20], value }
}

fn deposit(sequence_number: u64) -> OutPoint {
    OutPoint::Deposit { sequence_number }
}

fn synced() -> State {
    let mut state = State::new();
    let deposits = vec![
        Deposit { sequence_number: 0, address: [1; 20], value: 1000 },
        Deposit { sequence_number: 1, address: [2; 20], value: 500 },
    ];
    state.load_deposits(&deposits, 100, &[0xaa; 32]);
    state
}

fn main_block(block_height: u32, bmm_hashes: Vec<[u8; 32]>) -> MainBlock {
    MainBlock {
        block_height,
        block_hash: [block_height as u8; 32],
        deposits: vec![],
        withdrawal_bundle_event: None,
        bmm_hashes,
    }
}

fn header_over(prev: [u8; 32], transactions: &[Transaction]) -> Header {
    Header { prev_side_block_hash: prev, merkle_root: compute_merkle_root(transactions) }
}

fn sorted(mut entries: Vec<(OutPoint, Output)>) -> Vec<String> {
    let mut lines: Vec<String> = entries.drain(..).map(|e| format!("{:?}", e)).collect();
    lines.sort();
    lines
}

fn spend_deposit_0() -> Transaction {
    Transaction { inputs: vec![deposit(0)], outputs: vec![regular(3, 900)] }
}

/// The state after the initial sync, parent block 101 committing to `h`, and
/// the transaction of `spend_deposit_0` submitted.
fn ready(committed: bool) -> (State, Header, Transaction) {
    let mut state = synced();
    let transaction = spend_deposit_0();
    let header = header_over([0; 32], &[transaction.clone()]);
    let hashes = if committed { vec![header.hash()] } else { vec![] };
    assert_eq!(state.connect_main_block(&main_block(101, hashes)), Ok(()));
    assert_eq!(state.submit_transaction(&transaction), Ok(()));
    (state, header, transaction)
}

#[test]
fn a_new_state_is_clean() {
    let state = State::new();
    assert!(state.is_clean());
    assert_eq!(state.get_chain_tip(), None);
    assert_eq!(state.get_utxo_set(), vec![]);
    assert_eq!(state.get_main_chain_tip(), [0; 32]);
    assert_eq!(state.get_main_block_height(), 0);
    assert_eq!(state.get_side_block_height(), 0);
    assert_eq!(state.get_withdrawal_bundle(), vec![]);
}

#[test]
fn initial_sync_with_deposits() {
    let state = synced();
    assert!(!state.is_clean());
    let expected =
        vec![(deposit(0), regular(1, 1000)), (deposit(1), regular(2, 500))];
    assert_eq!(sorted(state.get_utxo_set()), sorted(expected));
    assert_eq!(state.get_main_block_height(), 100);
    assert_eq!(state.get_main_chain_tip(), [0xaa; 32]);
    assert_eq!(state.get_side_block_height(), 0);
}

#[test]
fn sidechain_block_connect() {
    let (mut state, header, transaction) = ready(true);
    assert_eq!(state.mempool().len(), 1);
    assert_eq!(state.mempool().get_entries()[0].1, 100);
    assert_eq!(state.connect(header, &[regular(4, 100)], &[transaction.clone()]), Ok(()));
    assert_eq!(state.get_chain_tip(), Some((1, (header, (0, 1)))));
    assert_eq!(state.archive().get_transactions(1), Some(vec![transaction]));
    let expected = vec![
        (deposit(1), regular(2, 500)),
        (OutPoint::Regular { transaction_number: 0, output_number: 0 }, regular(3, 900)),
        (OutPoint::Coinbase { block_number: 1, output_number: 0 }, regular(4, 100)),
    ];
    assert_eq!(sorted(state.get_utxo_set()), sorted(expected));
    assert_eq!(state.get_side_block_height(), 1);
    assert_eq!(state.mempool().get_pending_hashes(), Vec::<[u8; 32]>::new());
    assert_eq!(state.mempool().len(), 0);
    assert_eq!(state.get_main_block_height(), 101);
    assert_eq!(state.get_main_chain_tip(), [101; 32]);
}

#[test]
fn reject_non_bmm_block() {
    let (mut state, header, transaction) = ready(false);
    let before = sorted(state.get_utxo_set());
    assert_eq!(
        state.connect(header, &[regular(4, 100)], &[transaction]),
        Err(Error::NotBmmCommitted)
    );
    assert_eq!(sorted(state.get_utxo_set()), before);
    assert_eq!(state.get_chain_tip(), None);
    assert_eq!(state.get_side_block_height(), 0);
    assert_eq!(state.mempool().len(), 1);
}

#[test]
fn double_spend_in_block() {
    let mut state = synced();
    let first = spend_deposit_0();
    let second = Transaction { inputs: vec![deposit(0)], outputs: vec![regular(3, 800)] };
    let transactions = vec![first.clone(), second.clone()];
    let header = header_over([0; 32], &transactions);
    assert_eq!(state.connect_main_block(&main_block(101, vec![header.hash()])), Ok(()));
    assert_eq!(state.submit_transaction(&first), Ok(()));
    assert_eq!(state.submit_transaction(&second), Ok(()));
    assert!(!state.utxos().validate(&[], &transactions));
    let before = sorted(state.get_utxo_set());
    assert_eq!(state.connect(header, &[], &transactions), Err(Error::InvalidBlock));
    assert_eq!(sorted(state.get_utxo_set()), before);
    assert_eq!(state.get_chain_tip(), None);
    assert_eq!(state.archive().transaction_count(), 0);
    assert_eq!(state.mempool().len(), 2);
}

#[test]
fn withdrawal_lifecycle() {
    let mut state = synced();
    let withdrawal =
        Output::Withdrawal { address: [5; 20], main_address: [6; 20], value: 700, fee: 50 };
    let transaction =
        Transaction { inputs: vec![deposit(0)], outputs: vec![withdrawal, regular(3, 250)] };
    let header = header_over([0; 32], &[transaction.clone()]);
    assert_eq!(state.connect_main_block(&main_block(101, vec![header.hash()])), Ok(()));
    assert_eq!(state.submit_transaction(&transaction), Ok(()));
    assert_eq!(state.connect(header, &[], &[transaction]), Ok(()));
    let outpoint = OutPoint::Regular { transaction_number: 0, output_number: 0 };
    assert_eq!(state.utxos().get_unlocked_withdrawals(), vec![outpoint]);
    assert_eq!(state.collect_withdrawals(), Ok(()));
    assert_eq!(state.utxos().get_unlocked_withdrawals(), vec![]);
    assert_eq!(state.utxos().get_locked_withdrawals(), vec![outpoint]);
    assert_eq!(state.get_withdrawal_bundle(), vec![(outpoint, withdrawal)]);
    let mut failed = main_block(102, vec![]);
    failed.withdrawal_bundle_event = Some(WithdrawalBundleEvent {
        withdrawal_bundle_event_type: WithdrawalBundleEventType::Failed,
        m6id: [7; 32],
    });
    assert_eq!(state.connect_main_block(&failed), Ok(()));
    assert_eq!(state.utxos().get_utxo(&outpoint), Some(regular(5, 750)));
    assert_eq!(state.utxos().get_locked_withdrawals(), vec![]);
    assert_eq!(state.utxos().get_unlocked_withdrawals(), vec![]);
    assert_eq!(state.get_withdrawal_bundle(), vec![]);
    let expected = vec![
        (deposit(1), regular(2, 500)),
        (outpoint, regular(5, 750)),
        (OutPoint::Regular { transaction_number: 0, output_number: 1 }, regular(3, 250)),
    ];
    assert_eq!(sorted(state.get_utxo_set()), sorted(expected));
}

#[test]
fn succeeded_bundle_leaves_the_utxo_set() {
    let mut state = synced();
    let withdrawal =
        Output::Withdrawal { address: [5; 20], main_address: [6; 20], value: 700, fee: 50 };
    let transaction = Transaction { inputs: vec![deposit(0)], outputs: vec![withdrawal] };
    let header = header_over([0; 32], &[transaction.clone()]);
    assert_eq!(state.connect_main_block(&main_block(101, vec![header.hash()])), Ok(()));
    assert_eq!(state.submit_transaction(&transaction), Ok(()));
    assert_eq!(state.connect(header, &[regular(4, 250)], &[transaction]), Ok(()));
    assert_eq!(state.collect_withdrawals(), Ok(()));
    assert_eq!(state.collect_withdrawals(), Err(Error::BundlePending));
    let mut submitted = main_block(102, vec![]);
    submitted.withdrawal_bundle_event = Some(WithdrawalBundleEvent {
        withdrawal_bundle_event_type: WithdrawalBundleEventType::Submitted,
        m6id: [7; 32],
    });
    assert_eq!(state.connect_main_block(&submitted), Ok(()));
    assert_eq!(state.utxos().get_locked_withdrawals().len(), 1);
    let mut succeeded = main_block(103, vec![]);
    succeeded.withdrawal_bundle_event = Some(WithdrawalBundleEvent {
        withdrawal_bundle_event_type: WithdrawalBundleEventType::Succeeded,
        m6id: [7; 32],
    });
    assert_eq!(state.connect_main_block(&succeeded), Ok(()));
    assert_eq!(state.utxos().get_locked_withdrawals(), vec![]);
    let expected = vec![
        (deposit(1), regular(2, 500)),
        (OutPoint::Coinbase { block_number: 1, output_number: 0 }, regular(4, 250)),
    ];
    assert_eq!(sorted(state.get_utxo_set()), sorted(expected));
}

#[test]
fn mempool_packing() {
    let mut state = synced();
    let a = Transaction { inputs: vec![deposit(0)], outputs: vec![regular(3, 990)] };
    let b = Transaction {
        inputs: vec![deposit(0)],
        outputs: vec![regular(3, 490), regular(3, 500)],
    };
    assert_eq!(state.submit_transaction_at(&b, 5), Ok(()));
    assert_eq!(state.submit_transaction_at(&a, 6), Ok(()));
    assert_eq!(state.collect_transactions(), vec![a.clone()]);
    assert_eq!(state.mempool().get_pending_hashes(), vec![a.hash()]);
    let c = Transaction {
        inputs: vec![deposit(0)],
        outputs: vec![regular(3, 480), regular(3, 250), regular(3, 250)],
    };
    assert_eq!(state.submit_transaction_at(&c, 7), Ok(()));
    assert_eq!(state.mempool().get_entries()[0].1, 20);
    assert_eq!(state.collect_transactions(), vec![c.clone()]);
    assert_eq!(state.mempool().get_pending_hashes(), vec![c.hash()]);
}

#[test]
fn submit_twice_is_a_no_op() {
    let mut state = synced();
    let transaction = spend_deposit_0();
    assert_eq!(state.submit_transaction_at(&transaction, 5), Ok(()));
    state.collect_transactions();
    let entries = state.mempool().get_entries();
    let pending = state.mempool().get_pending_hashes();
    assert_eq!(state.submit_transaction_at(&transaction, 9), Ok(()));
    assert_eq!(state.submit_transaction(&transaction), Ok(()));
    assert_eq!(state.mempool().get_entries(), entries);
    assert_eq!(state.mempool().get_pending_hashes(), pending);
}

#[test]
fn submit_refuses_an_unpayable_transaction() {
    let mut state = synced();
    let missing = Transaction { inputs: vec![deposit(7)], outputs: vec![] };
    assert_eq!(state.submit_transaction(&missing), Err(Error::InvalidTransaction));
    let overspend = Transaction { inputs: vec![deposit(1)], outputs: vec![regular(3, 501)] };
    assert_eq!(state.submit_transaction_at(&overspend, 1), Err(Error::InvalidTransaction));
    assert_eq!(state.mempool().len(), 0);
}

#[test]
fn main_block_of_wrong_height_is_refused() {
    let mut state = synced();
    let before = sorted(state.get_utxo_set());
    for height in [0u32, 99, 100, 102, 103] {
        let mut block = main_block(height, vec![[9; 32]]);
        block.deposits = vec![Deposit { sequence_number: 5, address: [1; 20], value: 1 }];
        assert_eq!(state.connect_main_block(&block), Err(Error::InvalidMainHeight));
    }
    assert_eq!(sorted(state.get_utxo_set()), before);
    assert_eq!(state.get_main_block_height(), 100);
    assert_eq!(state.get_main_chain_tip(), [0xaa; 32]);
    assert!(!state.archive().is_bmm_committed(&[9; 32]));
}

#[test]
fn main_block_credits_deposits_and_moves_the_cursors() {
    let mut state = synced();
    let mut block = main_block(101, vec![[9; 32]]);
    block.deposits = vec![
        Deposit { sequence_number: 2, address: [8; 20], value: 70 },
        Deposit { sequence_number: 0, address: [8; 20], value: 1 },
    ];
    assert_eq!(state.connect_main_block(&block), Ok(()));
    assert_eq!(state.utxos().get_utxo(&deposit(2)), Some(regular(8, 70)));
    assert_eq!(state.utxos().get_utxo(&deposit(0)), Some(regular(8, 1)));
    assert_eq!(state.get_main_block_height(), 101);
    assert_eq!(state.get_main_chain_tip(), [101; 32]);
    assert!(state.archive().is_bmm_committed(&[9; 32]));
    assert_eq!(state.connect_main_block(&main_block(102, vec![])), Ok(()));
    assert_eq!(state.get_main_block_height(), 102);
}

#[test]
fn failed_bundle_that_cannot_be_refunded_refuses_the_main_block() {
    let mut state = synced();
    let withdrawal =
        Output::Withdrawal { address: [5; 20], main_address: [6; 20], value: 700, fee: 50 };
    let transaction = Transaction { inputs: vec![deposit(0)], outputs: vec![withdrawal] };
    let header = header_over([0; 32], &[transaction.clone()]);
    assert_eq!(state.connect_main_block(&main_block(101, vec![header.hash()])), Ok(()));
    assert_eq!(state.submit_transaction(&transaction), Ok(()));
    assert_eq!(state.connect(header, &[], &[transaction]), Ok(()));
    assert_eq!(state.collect_withdrawals(), Ok(()));
    // A later block spends the locked withdrawal.
    let spender = Transaction {
        inputs: vec![OutPoint::Regular { transaction_number: 0, output_number: 0 }],
        outputs: vec![regular(3, 750)],
    };
    let next = header_over(header.hash(), &[spender.clone()]);
    assert_eq!(state.connect_main_block(&main_block(102, vec![next.hash()])), Ok(()));
    assert_eq!(state.submit_transaction(&spender), Ok(()));
    assert_eq!(state.connect(next, &[], &[spender]), Ok(()));
    let mut failed = main_block(103, vec![]);
    failed.withdrawal_bundle_event = Some(WithdrawalBundleEvent {
        withdrawal_bundle_event_type: WithdrawalBundleEventType::Failed,
        m6id: [7; 32],
    });
    assert_eq!(state.connect_main_block(&failed), Err(Error::StoreFailure));
    assert_eq!(state.get_main_block_height(), 102);
    assert_eq!(state.utxos().get_locked_withdrawals().len(), 1);
}

#[test]
fn block_with_wrong_predecessor_is_refused() {
    let mut state = synced();
    let header = header_over([1; 32], &[]);
    assert_eq!(state.connect_main_block(&main_block(101, vec![header.hash()])), Ok(()));
    assert_eq!(state.connect(header, &[], &[]), Err(Error::WrongPrev));
    assert_eq!(state.get_chain_tip(), None);
}

#[test]
fn block_with_too_many_outputs_is_refused() {
    let mut state = synced();
    let transaction =
        Transaction { inputs: vec![deposit(0)], outputs: vec![regular(3, 1); 257] };
    let header = header_over([0; 32], &[transaction.clone()]);
    assert_eq!(state.connect_main_block(&main_block(101, vec![header.hash()])), Ok(()));
    assert_eq!(state.submit_transaction(&transaction), Ok(()));
    let before = sorted(state.get_utxo_set());
    assert_eq!(state.connect(header, &[], &[transaction]), Err(Error::OutputLimit));
    assert_eq!(sorted(state.get_utxo_set()), before);
    assert_eq!(state.get_chain_tip(), None);
    assert_eq!(state.mempool().len(), 1);
}

#[test]
fn block_with_256_outputs_is_accepted() {
    let mut state = synced();
    let transaction =
        Transaction { inputs: vec![deposit(0)], outputs: vec![regular(3, 1); 256] };
    let coinbase = vec![regular(4, 2); 256];
    let header = header_over([0; 32], &[transaction.clone()]);
    assert_eq!(state.connect_main_block(&main_block(101, vec![header.hash()])), Ok(()));
    assert_eq!(state.submit_transaction(&transaction), Ok(()));
    assert_eq!(state.connect(header, &coinbase, &[transaction]), Ok(()));
    assert_eq!(state.get_utxo_set().len(), 1 + 256 + 256);
}

#[test]
fn block_whose_transaction_is_not_pending_is_refused() {
    let mut state = synced();
    let transaction = spend_deposit_0();
    let header = header_over([0; 32], &[transaction.clone()]);
    assert_eq!(state.connect_main_block(&main_block(101, vec![header.hash()])), Ok(()));
    let before = sorted(state.get_utxo_set());
    assert_eq!(state.connect(header, &[], &[transaction]), Err(Error::NotInMempool));
    assert_eq!(sorted(state.get_utxo_set()), before);
    assert_eq!(state.get_chain_tip(), None);
    assert_eq!(state.get_side_block_height(), 0);
}

#[test]
fn coinbase_above_the_fees_is_refused() {
    let (mut state, header, transaction) = ready(true);
    assert_eq!(
        state.connect(header, &[regular(4, 101)], &[transaction]),
        Err(Error::InvalidBlock)
    );
    assert_eq!(state.get_chain_tip(), None);
}

#[test]
fn connect_then_disconnect_restores_the_state() {
    let (mut state, header, transaction) = ready(true);
    state.collect_transactions();
    let before = sorted(state.get_utxo_set());
    let entries = state.mempool().get_entries();
    let pending = state.mempool().get_pending_hashes();
    assert_eq!(pending, vec![transaction.hash()]);
    assert_eq!(state.connect(header, &[regular(4, 100)], &[transaction.clone()]), Ok(()));
    assert_ne!(sorted(state.get_utxo_set()), before);
    assert_eq!(state.mempool().len(), 0);
    assert_eq!(state.disconnect(1), Ok(()));
    assert_eq!(sorted(state.get_utxo_set()), before);
    assert_eq!(state.get_chain_tip(), None);
    assert_eq!(state.archive().transaction_count(), 0);
    assert_eq!(state.get_side_block_height(), 0);
    assert_eq!(state.utxos().get_transaction_number(), 0);
    assert_eq!(state.mempool().get_entries(), entries);
    assert_eq!(state.mempool().get_pending_hashes(), pending);
    assert_eq!(
        state.mempool().get_transaction(&transaction.hash()).map(|found| found.1),
        Some(100)
    );
    assert!(state.archive().is_bmm_committed(&header.hash()));
    assert_eq!(state.get_main_block_height(), 101);
    assert_eq!(state.connect(header, &[regular(4, 100)], &[transaction]), Ok(()));
    assert_eq!(state.get_side_block_height(), 1);
}

#[test]
fn empty_block_round_trips_the_whole_state() {
    let mut state = synced();
    let header = header_over([0; 32], &[]);
    assert_eq!(state.connect_main_block(&main_block(101, vec![header.hash()])), Ok(()));
    assert_eq!(state.submit_transaction_at(&spend_deposit_0(), 5), Ok(()));
    let utxos = sorted(state.get_utxo_set());
    let entries = state.mempool().get_entries();
    assert_eq!(state.connect(header, &[], &[]), Ok(()));
    assert_eq!(state.get_side_block_height(), 1);
    assert_eq!(state.disconnect(1), Ok(()));
    assert_eq!(sorted(state.get_utxo_set()), utxos);
    assert_eq!(state.mempool().get_entries(), entries);
    assert_eq!(state.mempool().get_pending_hashes(), Vec::<[u8; 32]>::new());
    assert_eq!(state.get_chain_tip(), None);
}

#[test]
fn disconnect_of_two_blocks_and_of_too_many() {
    let (mut state, header, transaction) = ready(true);
    let start = sorted(state.get_utxo_set());
    assert_eq!(state.connect(header, &[], &[transaction]), Ok(()));
    let second = header_over(header.hash(), &[]);
    assert_eq!(state.connect_main_block(&main_block(102, vec![second.hash()])), Ok(()));
    assert_eq!(state.connect(second, &[], &[]), Ok(()));
    assert_eq!(state.get_chain_tip(), Some((2, (second, (1, 1)))));
    assert_eq!(state.disconnect(3), Err(Error::StoreFailure));
    assert_eq!(state.get_side_block_height(), 2);
    assert_eq!(state.disconnect(0), Ok(()));
    assert_eq!(state.get_side_block_height(), 2);
    assert_eq!(state.disconnect(2), Ok(()));
    assert_eq!(state.get_chain_tip(), None);
    assert_eq!(state.get_side_block_height(), 0);
    assert_eq!(sorted(state.get_utxo_set()), start);
}

#[test]
fn side_block_height_counts_the_archived_blocks() {
    let (mut state, header, transaction) = ready(true);
    assert_eq!(state.get_side_block_height(), 0);
    assert_eq!(state.connect(header, &[], &[transaction]), Ok(()));
    let mut prev = header;
    for height in 2..6u32 {
        let next = Header { prev_side_block_hash: prev.hash(), merkle_root: [height as u8; 32] };
        assert_eq!(
            state.connect_main_block(&main_block(100 + height, vec![next.hash()])),
            Ok(())
        );
        assert_eq!(state.connect(next, &[], &[]), Ok(()));
        assert_eq!(state.get_side_block_height(), height);
        assert_eq!(state.get_chain_tip().unwrap().0, height);
        prev = next;
    }
    assert_eq!(state.archive().transaction_count(), 1);
    assert_eq!(state.utxos().get_transaction_number(), 1);
}

#[test]
fn validate_names_the_first_reason_and_changes_nothing() {
    let (state, header, transaction) = ready(true);
    assert_eq!(state.validate(&header, &[regular(4, 100)], &[transaction.clone()]), Ok(()));
    assert_eq!(
        state.validate(&header, &[regular(4, 101)], &[transaction.clone()]),
        Err(Error::InvalidBlock)
    );
    let stray = Header { prev_side_block_hash: [0; 32], merkle_root: [1; 32] };
    assert_eq!(state.validate(&stray, &[], &[transaction]), Err(Error::NotBmmCommitted));
    assert_eq!(state.get_chain_tip(), None);
    assert_eq!(state.mempool().len(), 1);
}
