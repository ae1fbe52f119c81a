use cusf_sidechain::codec::serialize_transaction;
use cusf_sidechain::hashing::Hashable;
use cusf_sidechain::mempool::Mempool;
use cusf_sidechain::types::{Error, OutPoint, Output, Transaction};

fn spend(sequence_number: u64, outputs: usize) -> Transaction {
    Transaction {
        inputs: vec![OutPoint::Deposit { sequence_number }],
        outputs: vec![Output::Regular { address: [3; 20], value: 1 }; outputs],
    }
}

fn hashes(transactions: &[Transaction]) -> Vec<[u8; 32]> {
    transactions.iter().map(|t| t.hash()).collect()
}

#[test]
fn new_pool_is_empty() {
    let pool = Mempool::new();
    assert_eq!(pool.len(), 0);
    assert_eq!(pool.get_entries(), vec![]);
    assert_eq!(pool.get_pending_hashes(), Vec::<[u8; 32]>::new());
    assert_eq!(pool.get_pending_transactions(), Ok(vec![]));
}

#[test]
fn submit_records_hash_fee_size_and_time() {
    let mut pool = Mempool::new();
    let transaction = spend(0, 1);
    pool.submit_transaction_at(&transaction, 10, 1000);
    let size = serialize_transaction(&transaction).len() as u32;
    assert_eq!(size, 54);
    assert_eq!(pool.get_entries(), vec![(transaction.hash(), 10, 54, 1000)]);
    assert_eq!(pool.get_transaction(&transaction.hash()), Some((transaction.clone(), 10, 1000)));
    assert!(pool.contains(&transaction.hash()));
    assert!(!pool.contains(&[0; 32]));
    assert_eq!(pool.get_transaction(&[0; 32]), None);
}

#[test]
fn second_submission_changes_nothing() {
    let mut pool = Mempool::new();
    let transaction = spend(0, 1);
    pool.submit_transaction_at(&spend(1, 1), 5, 900);
    pool.submit_transaction_at(&transaction, 10, 1000);
    pool.collect_transactions();
    let entries = pool.get_entries();
    let pending = pool.get_pending_hashes();
    pool.submit_transaction_at(&transaction, 10, 1000);
    pool.submit_transaction_at(&transaction, 99, 5);
    assert_eq!(pool.get_entries(), entries);
    assert_eq!(pool.get_pending_hashes(), pending);
    assert_eq!(pool.len(), 2);
}

#[test]
fn entries_stand_by_fee_then_size_then_time() {
    let mut pool = Mempool::new();
    let low = spend(0, 1);
    let high = spend(1, 3);
    let small = spend(2, 1);
    let large = spend(3, 2);
    let old = spend(4, 2);
    pool.submit_transaction_at(&low, 1, 10);
    pool.submit_transaction_at(&large, 5, 20);
    pool.submit_transaction_at(&high, 9, 30);
    pool.submit_transaction_at(&small, 5, 40);
    pool.submit_transaction_at(&old, 5, 15);
    let order: Vec<[u8; 32]> = pool.get_entries().iter().map(|e| e.0).collect();
    assert_eq!(order, hashes(&[high, small, old, large, low]));
}

#[test]
fn equal_entries_keep_their_order_of_arrival() {
    let mut pool = Mempool::new();
    let first = spend(0, 1);
    let second = spend(1, 1);
    pool.submit_transaction_at(&first, 5, 10);
    pool.submit_transaction_at(&second, 5, 10);
    let order: Vec<[u8; 32]> = pool.get_entries().iter().map(|e| e.0).collect();
    assert_eq!(order, hashes(&[first, second]));
}

#[test]
fn submit_now_stamps_the_current_time() {
    let mut pool = Mempool::new();
    let transaction = spend(0, 1);
    assert_eq!(pool.submit_transaction(&transaction, 10), Ok(()));
    let entries = pool.get_entries();
    assert_eq!(entries.len(), 1);
    assert_eq!(entries[0].1, 10);
    assert!(entries[0].3 > 1_600_000_000);
    assert!(entries[0].3 < 100_000_000_000);
}

#[test]
fn of_two_conflicting_transactions_of_one_fee_the_smaller_is_selected() {
    let mut pool = Mempool::new();
    let a = spend(0, 1);
    let b = spend(0, 2);
    pool.submit_transaction_at(&b, 10, 1);
    pool.submit_transaction_at(&a, 10, 2);
    pool.collect_transactions();
    assert_eq!(pool.get_pending_transactions(), Ok(vec![a.clone()]));
    let c = spend(0, 3);
    pool.submit_transaction_at(&c, 20, 3);
    pool.collect_transactions();
    assert_eq!(pool.get_pending_transactions(), Ok(vec![c]));
    assert_eq!(pool.len(), 3);
}

#[test]
fn of_two_conflicting_transactions_of_one_fee_and_size_the_older_is_selected() {
    let mut pool = Mempool::new();
    let young = Transaction {
        inputs: vec![OutPoint::Deposit { sequence_number: 0 }],
        outputs: vec![Output::Regular { address: [1; 20], value: 1 }],
    };
    let old = Transaction {
        inputs: vec![OutPoint::Deposit { sequence_number: 0 }],
        outputs: vec![Output::Regular { address: [2; 20], value: 1 }],
    };
    pool.submit_transaction_at(&young, 10, 200);
    pool.submit_transaction_at(&old, 10, 100);
    pool.collect_transactions();
    assert_eq!(pool.get_pending_transactions(), Ok(vec![old]));
}

#[test]
fn higher_fee_wins_a_conflict() {
    let mut pool = Mempool::new();
    let cheap = spend(0, 1);
    let dear = spend(0, 9);
    pool.submit_transaction_at(&cheap, 10, 1);
    pool.submit_transaction_at(&dear, 11, 2);
    pool.collect_transactions();
    assert_eq!(pool.get_pending_hashes(), vec![dear.hash()]);
}

#[test]
fn selection_holds_no_conflict_and_no_transaction_twice() {
    let mut pool = Mempool::new();
    let both = Transaction {
        inputs: vec![
            OutPoint::Deposit { sequence_number: 0 },
            OutPoint::Deposit { sequence_number: 1 },
        ],
        outputs: vec![],
    };
    pool.submit_transaction_at(&spend(0, 1), 5, 1);
    pool.submit_transaction_at(&spend(1, 1), 4, 1);
    pool.submit_transaction_at(&both, 3, 1);
    pool.submit_transaction_at(&spend(2, 1), 2, 1);
    pool.submit_transaction_at(&spend(2, 2), 1, 1);
    pool.collect_transactions();
    let selected = pool.get_pending_transactions().unwrap();
    assert_eq!(selected, vec![spend(0, 1), spend(1, 1), spend(2, 1)]);
    let mut spent: Vec<OutPoint> = Vec::new();
    for transaction in &selected {
        for input in &transaction.inputs {
            assert!(!spent.contains(input));
            spent.push(*input);
        }
    }
    let pending = pool.get_pending_hashes();
    for (i, hash) in pending.iter().enumerate() {
        assert!(!pending[..i].contains(hash));
    }
}

#[test]
fn a_passed_over_transaction_does_not_block_others() {
    let mut pool = Mempool::new();
    let first = spend(0, 1);
    let loser = Transaction {
        inputs: vec![
            OutPoint::Deposit { sequence_number: 0 },
            OutPoint::Deposit { sequence_number: 1 },
        ],
        outputs: vec![],
    };
    let third = spend(1, 1);
    pool.submit_transaction_at(&first, 9, 1);
    pool.submit_transaction_at(&loser, 8, 1);
    pool.submit_transaction_at(&third, 7, 1);
    pool.collect_transactions();
    assert_eq!(pool.get_pending_transactions(), Ok(vec![first, third]));
}

#[test]
fn selection_stays_within_the_block_size_limit() {
    let mut pool = Mempool::new();
    // 25 + 29 * 256 = 7449 bytes each.
    let mut total: usize = 8;
    let mut fitting = 0;
    for i in 0..150u64 {
        let transaction = spend(i, 256);
        pool.submit_transaction_at(&transaction, 1000 - i, i);
        if total + 7449 <= 1_048_576 {
            total += 7449;
            fitting += 1;
        }
    }
    assert_eq!(fitting, 140);
    let small = spend(1000, 1);
    pool.submit_transaction_at(&small, 1, 0);
    pool.collect_transactions();
    let selected = pool.get_pending_transactions().unwrap();
    assert_eq!(selected.len(), 141);
    assert_eq!(selected[0], spend(0, 256));
    assert_eq!(selected[139], spend(139, 256));
    assert_eq!(selected[140], small);
}

#[test]
fn a_transaction_that_does_not_fit_stops_its_fee_only() {
    let mut pool = Mempool::new();
    for i in 0..140u64 {
        pool.submit_transaction_at(&spend(i, 256), 50, i);
    }
    // Of fee 40 the smaller comes first and does not fit alone after the 140:
    // 8 + 140 * 7449 = 1042868, and 1042868 + 5738 > 1048576.
    let medium = spend(500, 197);
    let tiny_same_fee = spend(501, 250);
    pool.submit_transaction_at(&medium, 40, 1);
    pool.submit_transaction_at(&tiny_same_fee, 40, 2);
    let tiny = spend(502, 1);
    pool.submit_transaction_at(&tiny, 30, 3);
    pool.collect_transactions();
    let selected = pool.get_pending_transactions().unwrap();
    assert_eq!(selected.len(), 141);
    assert_eq!(selected[140], tiny);
}

#[test]
fn connect_drops_the_block_and_the_selection() {
    let mut pool = Mempool::new();
    let a = spend(0, 1);
    let b = spend(1, 1);
    let c = spend(2, 1);
    pool.submit_transaction_at(&a, 3, 1);
    pool.submit_transaction_at(&b, 2, 1);
    pool.submit_transaction_at(&c, 1, 1);
    pool.collect_transactions();
    assert_eq!(pool.get_pending_hashes().len(), 3);
    assert!(pool.is_connectable(&[c.clone(), a.clone()]));
    assert_eq!(pool.connect(&[c.clone(), a.clone()]), Ok(()));
    assert_eq!(pool.get_pending_hashes(), Vec::<[u8; 32]>::new());
    let order: Vec<[u8; 32]> = pool.get_entries().iter().map(|e| e.0).collect();
    assert_eq!(order, vec![b.hash()]);
}

#[test]
fn connect_refuses_a_transaction_that_is_not_pending() {
    let mut pool = Mempool::new();
    let a = spend(0, 1);
    pool.submit_transaction_at(&a, 3, 1);
    pool.collect_transactions();
    assert!(!pool.is_connectable(&[a.clone(), spend(1, 1)]));
    assert_eq!(pool.connect(&[a.clone(), spend(1, 1)]), Err(Error::NotInMempool));
    assert_eq!(pool.connect(&[a.clone(), a.clone()]), Err(Error::NotInMempool));
    assert_eq!(pool.len(), 1);
    assert_eq!(pool.get_pending_hashes(), vec![a.hash()]);
}

#[test]
fn connect_of_no_transactions_clears_the_selection() {
    let mut pool = Mempool::new();
    pool.submit_transaction_at(&spend(0, 1), 3, 1);
    pool.collect_transactions();
    assert_eq!(pool.connect(&[]), Ok(()));
    assert_eq!(pool.get_pending_hashes(), Vec::<[u8; 32]>::new());
    assert_eq!(pool.len(), 1);
}

#[test]
fn remove_deletes_one_entry() {
    let mut pool = Mempool::new();
    let a = spend(0, 1);
    let b = spend(1, 1);
    pool.submit_transaction_at(&a, 3, 1);
    pool.submit_transaction_at(&b, 3, 2);
    assert_eq!(pool.remove(&a.hash()), Ok(()));
    assert_eq!(pool.remove(&a.hash()), Err(Error::NotInMempool));
    assert_eq!(pool.get_entries(), vec![(b.hash(), 3, 54, 2)]);
}

#[test]
fn pending_transactions_fail_once_one_was_removed() {
    let mut pool = Mempool::new();
    let a = spend(0, 1);
    pool.submit_transaction_at(&a, 3, 1);
    pool.collect_transactions();
    assert_eq!(pool.remove(&a.hash()), Ok(()));
    assert_eq!(pool.get_pending_transactions(), Err(Error::NotInMempool));
}

#[test]
fn by_fee_lists_one_fee_ascending_by_size_then_time() {
    let mut pool = Mempool::new();
    let large = spend(0, 2);
    let small_young = spend(1, 1);
    let small_old = spend(2, 1);
    let other = spend(3, 1);
    pool.submit_transaction_at(&large, 5, 1);
    pool.submit_transaction_at(&small_young, 5, 30);
    pool.submit_transaction_at(&other, 6, 2);
    pool.submit_transaction_at(&small_old, 5, 20);
    assert_eq!(
        pool.get_by_fee(5),
        vec![(small_old.hash(), 54, 20), (small_young.hash(), 54, 30), (large.hash(), 83, 1)]
    );
    assert_eq!(pool.get_by_fee(6), vec![(other.hash(), 54, 2)]);
    assert_eq!(pool.get_by_fee(7), vec![]);
}

#[test]
fn disconnect_gives_back_the_block_and_the_selection() {
    let mut pool = Mempool::new();
    let a = spend(0, 1);
    let b = spend(1, 1);
    let c = spend(2, 1);
    let d = spend(3, 1);
    pool.submit_transaction_at(&a, 5, 10);
    pool.submit_transaction_at(&b, 5, 10);
    pool.submit_transaction_at(&c, 5, 10);
    pool.submit_transaction_at(&d, 1, 10);
    pool.collect_transactions();
    let entries = pool.get_entries();
    let pending = pool.get_pending_hashes();
    assert_eq!(pending.len(), 4);
    assert_eq!(pool.connect(&[c.clone(), a.clone()]), Ok(()));
    assert_eq!(pool.len(), 2);
    assert_eq!(pool.disconnect(), Ok(()));
    assert_eq!(pool.get_entries(), entries);
    assert_eq!(pool.get_pending_hashes(), pending);
    assert_eq!(pool.get_transaction(&a.hash()), Some((a, 5, 10)));
    assert_eq!(pool.get_pending_transactions().map(|list| list.len()), Ok(4));
}

#[test]
fn disconnect_without_a_connected_block_fails() {
    let mut pool = Mempool::new();
    pool.submit_transaction_at(&spend(0, 1), 5, 10);
    let entries = pool.get_entries();
    assert_eq!(pool.disconnect(), Err(Error::StoreFailure));
    assert_eq!(pool.get_entries(), entries);
}

#[test]
fn blocks_are_given_back_newest_first() {
    let mut pool = Mempool::new();
    let a = spend(0, 1);
    let b = spend(1, 1);
    pool.submit_transaction_at(&a, 5, 10);
    pool.submit_transaction_at(&b, 4, 10);
    let start = pool.get_entries();
    assert_eq!(pool.connect(&[a.clone()]), Ok(()));
    let middle = pool.get_entries();
    assert_eq!(pool.connect(&[b.clone()]), Ok(()));
    assert_eq!(pool.len(), 0);
    assert_eq!(pool.disconnect(), Ok(()));
    assert_eq!(pool.get_entries(), middle);
    assert_eq!(pool.disconnect(), Ok(()));
    assert_eq!(pool.get_entries(), start);
    assert_eq!(pool.disconnect(), Err(Error::StoreFailure));
}

#[test]
fn a_transaction_submitted_again_is_not_given_back_twice() {
    let mut pool = Mempool::new();
    let a = spend(0, 1);
    pool.submit_transaction_at(&a, 5, 10);
    assert_eq!(pool.connect(&[a.clone()]), Ok(()));
    pool.submit_transaction_at(&a, 7, 20);
    assert_eq!(pool.disconnect(), Ok(()));
    assert_eq!(pool.get_entries(), vec![(a.hash(), 7, 54, 20)]);
}

#[test]
fn a_given_back_transaction_finds_its_place_among_new_ones() {
    let mut pool = Mempool::new();
    let a = spend(0, 1);
    let low = spend(1, 1);
    let high = spend(2, 1);
    pool.submit_transaction_at(&a, 5, 10);
    assert_eq!(pool.connect(&[a.clone()]), Ok(()));
    pool.submit_transaction_at(&high, 9, 30);
    pool.submit_transaction_at(&low, 1, 30);
    assert_eq!(pool.disconnect(), Ok(()));
    let order: Vec<[u8; 32]> = pool.get_entries().iter().map(|e| e.0).collect();
    assert_eq!(order, hashes(&[high, a, low]));
}
