use cusf_sidechain::tables::{HashSet32, OutPointSet, OutputTable};
use cusf_sidechain::types::{OutPoint, Output};

fn at(transaction_number: u64, output_number: u8) -> OutPoint {
    OutPoint::Regular { transaction_number, output_number }
}

fn worth(value: u64) -> Output {
    Output::Regular { address: [1; 20], value }
}

#[test]
fn output_table_holds_one_output_per_outpoint() {
    let mut table = OutputTable::new();
    assert!(table.is_empty());
    assert_eq!(table.get(&at(0, 0)), None);
    table.insert(at(0, 0), worth(1));
    table.insert(at(0, 1), worth(2));
    table.insert(at(0, 0), worth(3));
    assert!(!table.is_empty());
    assert_eq!(table.get(&at(0, 0)), Some(worth(3)));
    assert_eq!(table.get(&at(0, 1)), Some(worth(2)));
    assert!(table.contains_key(&at(0, 1)));
    assert!(!table.contains_key(&at(1, 0)));
    assert_eq!(table.entries(), vec![(at(0, 0), worth(3)), (at(0, 1), worth(2))]);
}

#[test]
fn output_table_remove_deletes_only_the_key() {
    let mut table = OutputTable::new();
    table.insert(at(0, 0), worth(1));
    table.insert(at(0, 1), worth(2));
    table.insert(at(0, 2), worth(3));
    table.remove(&at(0, 1));
    table.remove(&at(9, 9));
    assert_eq!(table.entries(), vec![(at(0, 0), worth(1)), (at(0, 2), worth(3))]);
    table.remove(&at(0, 0));
    table.remove(&at(0, 2));
    assert!(table.is_empty());
}

#[test]
fn outpoint_set_holds_each_outpoint_once() {
    let mut set = OutPointSet::new();
    assert!(set.is_empty());
    set.insert(at(0, 0));
    set.insert(at(0, 1));
    set.insert(at(0, 0));
    assert_eq!(set.len(), 2);
    assert!(set.contains(&at(0, 1)));
    assert!(!set.contains(&at(0, 2)));
    set.remove(&at(0, 0));
    set.remove(&at(0, 0));
    assert_eq!(set.to_vec(), vec![at(0, 1)]);
    set.clear();
    assert!(set.is_empty());
    assert_eq!(set.len(), 0);
}

#[test]
fn outpoint_set_from_a_list_without_repeats() {
    let set = OutPointSet::from_distinct(vec![at(3, 0), at(1, 0)]);
    assert_eq!(set.len(), 2);
    assert!(set.contains(&at(1, 0)));
    assert_eq!(set.to_vec(), vec![at(3, 0), at(1, 0)]);
}

#[test]
fn retain_keeps_regular_outpoints_below_the_bound() {
    let mut set = OutPointSet::new();
    set.insert(at(0, 0));
    set.insert(at(4, 1));
    set.insert(at(5, 0));
    set.insert(at(9, 0));
    set.retain_regular_below(5);
    assert_eq!(set.to_vec(), vec![at(0, 0), at(4, 1)]);
    set.retain_regular_below(0);
    assert!(set.is_empty());
}

#[test]
fn retain_drops_what_is_no_regular_outpoint() {
    let set = OutPointSet::from_distinct(vec![
        OutPoint::Deposit { sequence_number: 0 },
        at(0, 0),
        OutPoint::Coinbase { block_number: 0, output_number: 0 },
    ]);
    let mut kept = set;
    kept.retain_regular_below(u64::MAX);
    assert_eq!(kept.to_vec(), vec![at(0, 0)]);
}

#[test]
fn hash_set_holds_hashes() {
    let mut set = HashSet32::new();
    assert!(!set.contains(&[0; 32]));
    set.insert([0; 32]);
    set.insert([1; 32]);
    set.insert([0; 32]);
    assert!(set.contains(&[0; 32]));
    assert!(set.contains(&[1; 32]));
    let mut near = [1u8; 32];
    near[31] = 0;
    assert!(!set.contains(&near));
}
