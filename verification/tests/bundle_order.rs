use cusf_sidechain::bundle_order::{bytes_less, precedes};
use cusf_sidechain::types::{OutPoint, Output, Transaction};
use cusf_sidechain::utxos::Utxos;

fn at(transaction_number: u64, output_number: u8) -> OutPoint {
    OutPoint::Regular { transaction_number, output_number }
}

#[test]
fn bytes_compare_as_in_a_dictionary() {
    assert!(bytes_less(&[1, 2], &[1, 3]));
    assert!(!bytes_less(&[1, 3], &[1, 2]));
    assert!(bytes_less(&[1], &[1, 0]));
    assert!(!bytes_less(&[1, 0], &[1]));
    assert!(!bytes_less(&[1, 2], &[1, 2]));
    assert!(bytes_less(&[], &[0]));
    assert!(!bytes_less(&[], &[]));
    assert!(bytes_less(&[0, 255], &[1]));
}

#[test]
fn lower_fee_enters_the_bundle_first() {
    assert!(precedes(1, &at(9, 9), 2, &at(0, 0)));
    assert!(!precedes(2, &at(0, 0), 1, &at(9, 9)));
}

#[test]
fn equal_fees_go_by_the_bytes_of_the_outpoint() {
    assert!(precedes(5, &at(0, 1), 5, &at(0, 2)));
    assert!(!precedes(5, &at(0, 2), 5, &at(0, 1)));
    assert!(!precedes(5, &at(0, 1), 5, &at(0, 1)));
    // Little-endian bytes: 256 encodes as 00 01 .., which comes before 01 00 ..
    assert!(precedes(5, &at(256, 0), 5, &at(1, 0)));
}

#[test]
fn the_bundle_takes_the_lowest_fees_whatever_the_order_of_arrival() {
    let mut utxos = Utxos::new();
    let fees = [9u64, 3, 7, 3, 1];
    let outputs: Vec<Output> = fees
        .iter()
        .map(|fee| Output::Withdrawal {
            address: [5; 20],
            main_address: [6; 20],
            value: 10,
            fee: *fee,
        })
        .collect();
    let transactions = vec![Transaction { inputs: vec![], outputs }];
    assert_eq!(utxos.connect(1, &[], &transactions), Ok(()));
    assert_eq!(utxos.collect_withdrawals(), Ok(()));
    let mut locked = utxos.get_locked_withdrawals();
    locked.sort_by_key(|p| format!("{:?}", p));
    assert_eq!(locked.len(), 5);
    assert_eq!(utxos.get_locked_withdrawals()[0], at(0, 4));
    assert_eq!(utxos.get_locked_withdrawals()[1], at(0, 1));
    assert_eq!(utxos.get_locked_withdrawals()[2], at(0, 3));
    assert_eq!(utxos.get_locked_withdrawals()[3], at(0, 2));
    assert_eq!(utxos.get_locked_withdrawals()[4], at(0, 0));
}
