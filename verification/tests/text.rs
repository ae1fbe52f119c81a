use cusf_sidechain::types::{OutPoint, Output};

#[test]
fn outpoints_read_as_letter_and_numbers() {
    assert_eq!(
        OutPoint::Regular { transaction_number: 258, output_number: 3 }.to_text(),
        "r:258:3"
    );
    assert_eq!(OutPoint::Deposit { sequence_number: 0 }.to_text(), "d:0");
    assert_eq!(
        OutPoint::Deposit { sequence_number: u64::MAX }.to_text(),
        "d:18446744073709551615"
    );
    assert_eq!(
        OutPoint::Coinbase { block_number: 4_000_000_000, output_number: 255 }.to_text(),
        "c:4000000000:255"
    );
}

#[test]
fn regular_output_reads_as_address_and_amount() {
    let output = Output::Regular { address: [0; 20], value: 100_000_000 };
    let address = bs58::encode([0u8; 20]).with_check().into_string();
    assert_eq!(address, "111111111111111111117K4nzc");
    assert_eq!(output.to_text(), "111111111111111111117K4nzc: 1 BTC");
}

#[test]
fn amounts_below_one_coin_show_eight_places() {
    let output = Output::Regular { address: [0; 20], value: 1000 };
    assert_eq!(output.to_text(), "111111111111111111117K4nzc: 0.00001000 BTC");
}

#[test]
fn withdrawal_reads_with_both_addresses_and_the_fee() {
    let output =
        Output::Withdrawal { address: [5; 20], main_address: [6; 20], value: 700, fee: 50 };
    let address = bs58::encode([5u8; 20]).with_check().into_string();
    let main_address = bs58::encode([6u8; 20]).with_check().into_string();
    assert_ne!(address, main_address);
    assert_eq!(
        output.to_text(),
        format!("{address} -> {main_address}: 0.00000700 BTC (fee 0.00000050 BTC)")
    );
}
