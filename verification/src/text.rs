//! Outpoints and outputs as text, for people to read.

use vstd::prelude::*;
use vstd::string::StringExecFns;
use crate::types::{OutPoint, Output};

verus! {

/// The character of a decimal digit.
pub open spec fn digit(d: nat) -> char {
    if d == 0 {
        '0'
    } else if d == 1 {
        '1'
    } else if d == 2 {
        '2'
    } else if d == 3 {
        '3'
    } else if d == 4 {
        '4'
    } else if d == 5 {
        '5'
    } else if d == 6 {
        '6'
    } else if d == 7 {
        '7'
    } else if d == 8 {
        '8'
    } else {
        '9'
    }
}

/// A number in decimal digits, without sign or leading zeros.
pub open spec fn decimal(n: nat) -> Seq<char>
    decreases n,
{
    if n < 10 {
        seq![digit(n)]
    } else {
        decimal(n / 10).push(digit(n % 10))
    }
}

/// The Base58Check text of a byte string: the bytes and a checksum of
/// them, in the Bitcoin alphabet of 58 characters.
pub uninterp spec fn base58check(bytes: Seq<u8>) -> Seq<char>;

/// An amount of satoshis as `bitcoin::Amount` displays it.
pub uninterp spec fn amount_text(satoshis: u64) -> Seq<char>;

/// Calls `u64::to_string`. Trusted: the text is the number in decimal
/// digits, without sign or leading zeros.
#[verifier::external_body]
fn decimal_string(n: u64) -> (r: String)
    ensures
        r@ == decimal(n as nat),
{
    n.to_string()
}

/// Calls `bs58::encode`, with the builder's `with_check` and
/// `into_string`. Trusted: the text is the Base58Check encoding of
/// `bytes`, a function of the bytes alone.
#[verifier::external_body]
fn base58check_string(bytes: &[u8]) -> (r: String)
    ensures
        r@ == base58check(bytes@),
{
    bs58::encode(bytes).with_check().into_string()
}

/// Calls `bitcoin::Amount::from_sat` and the amount's `to_string`.
/// Trusted: the text is a function of the number of satoshis alone.
#[verifier::external_body]
fn amount_string(satoshis: u64) -> (r: String)
    ensures
        r@ == amount_text(satoshis),
{
    bitcoin::Amount::from_sat(satoshis).to_string()
}

impl OutPoint {
    /// The outpoint as text: `r:` with transaction and output number,
    /// `d:` with sequence number, or `c:` with block and output number.
    pub open spec fn spec_text(self) -> Seq<char> {
        match self {
            OutPoint::Regular { transaction_number, output_number } => "r:"@ + decimal(
                transaction_number as nat,
            ) + ":"@ + decimal(output_number as nat),
            OutPoint::Deposit { sequence_number } => "d:"@ + decimal(sequence_number as nat),
            OutPoint::Coinbase { block_number, output_number } => "c:"@ + decimal(
                block_number as nat,
            ) + ":"@ + decimal(output_number as nat),
        }
    }

    /// The outpoint as text.
    pub fn to_text(&self) -> (r: String)
        ensures
            r@ == self.spec_text(),
    {
        match self {
            OutPoint::Regular { transaction_number, output_number } => {
                let mut text = String::from_str("r:");
                text.append(decimal_string(*transaction_number).as_str());
                text.append(":");
                text.append(decimal_string(*output_number as u64).as_str());
                text
            },
            OutPoint::Deposit { sequence_number } => {
                let mut text = String::from_str("d:");
                text.append(decimal_string(*sequence_number).as_str());
                text
            },
            OutPoint::Coinbase { block_number, output_number } => {
                let mut text = String::from_str("c:");
                text.append(decimal_string(*block_number as u64).as_str());
                text.append(":");
                text.append(decimal_string(*output_number as u64).as_str());
                text
            },
        }
    }
}

impl Output {
    /// The output as text: the sidechain address in Base58Check, for a
    /// withdrawal the parent-chain address behind it, then the value, and
    /// for a withdrawal the fee.
    pub open spec fn spec_text(self) -> Seq<char> {
        match self {
            Output::Regular { address, value } => base58check(address@) + ": "@ + amount_text(
                value,
            ),
            Output::Withdrawal { address, main_address, value, fee } => base58check(address@)
                + " -> "@ + base58check(main_address@) + ": "@ + amount_text(value) + " (fee "@
                + amount_text(fee) + ")"@,
        }
    }

    /// The output as text.
    pub fn to_text(&self) -> (r: String)
        ensures
            r@ == self.spec_text(),
    {
        match self {
            Output::Regular { address, value } => {
                let mut text = base58check_string(address.as_slice());
                text.append(": ");
                text.append(amount_string(*value).as_str());
                text
            },
            Output::Withdrawal { address, main_address, value, fee } => {
                let mut text = base58check_string(address.as_slice());
                text.append(" -> ");
                text.append(base58check_string(main_address.as_slice()).as_str());
                text.append(": ");
                text.append(amount_string(*value).as_str());
                text.append(" (fee ");
                text.append(amount_string(*fee).as_str());
                text.append(")");
                text
            },
        }
    }
}

} // verus!
