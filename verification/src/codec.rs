//! The canonical binary encoding of the data model.
//!
//! Integers are little-endian and of fixed width. A sum starts with a tag
//! byte that names the variant, followed by the variant's fields in order.
//! A list is its length as a 64-bit integer, followed by its elements.

use vstd::prelude::*;
use vstd::bytes::{
    spec_u32_to_le_bytes, spec_u64_to_le_bytes, u32_to_le_bytes, u64_to_le_bytes,
};
use crate::types::{Header, OutPoint, Output, Transaction, TransactionView, transaction_views};

verus! {

pub const TAG_OUTPOINT_REGULAR: u8 = 0;

pub const TAG_OUTPOINT_DEPOSIT: u8 = 1;

pub const TAG_OUTPOINT_COINBASE: u8 = 2;

pub const TAG_OUTPUT_REGULAR: u8 = 0;

pub const TAG_OUTPUT_WITHDRAWAL: u8 = 1;

pub open spec fn encode_outpoint(outpoint: OutPoint) -> Seq<u8> {
    match outpoint {
        OutPoint::Regular { transaction_number, output_number } => seq![TAG_OUTPOINT_REGULAR]
            + spec_u64_to_le_bytes(transaction_number) + seq![output_number],
        OutPoint::Deposit { sequence_number } => seq![TAG_OUTPOINT_DEPOSIT] + spec_u64_to_le_bytes(
            sequence_number,
        ),
        OutPoint::Coinbase { block_number, output_number } => seq![TAG_OUTPOINT_COINBASE]
            + spec_u32_to_le_bytes(block_number) + seq![output_number],
    }
}

pub open spec fn encode_output(output: Output) -> Seq<u8> {
    match output {
        Output::Regular { address, value } => seq![TAG_OUTPUT_REGULAR] + address@
            + spec_u64_to_le_bytes(value),
        Output::Withdrawal { address, main_address, value, fee } => seq![TAG_OUTPUT_WITHDRAWAL]
            + address@ + main_address@ + spec_u64_to_le_bytes(value) + spec_u64_to_le_bytes(fee),
    }
}

/// The encodings of the elements of `items`, one after the other.
pub open spec fn encode_each<T>(items: Seq<T>, encode: spec_fn(T) -> Seq<u8>) -> Seq<u8>
    decreases items.len(),
{
    if items.len() == 0 {
        Seq::<u8>::empty()
    } else {
        encode(items.first()) + encode_each(items.drop_first(), encode)
    }
}

/// A list: its length in 64 bits, then its elements.
pub open spec fn encode_list<T>(items: Seq<T>, encode: spec_fn(T) -> Seq<u8>) -> Seq<u8> {
    spec_u64_to_le_bytes(items.len() as u64) + encode_each(items, encode)
}

/// The encoding of outpoints, as a function.
pub open spec fn outpoint_encoder() -> spec_fn(OutPoint) -> Seq<u8> {
    |p: OutPoint| encode_outpoint(p)
}

/// The encoding of outputs, as a function.
pub open spec fn output_encoder() -> spec_fn(Output) -> Seq<u8> {
    |o: Output| encode_output(o)
}

/// The encoding of transactions, as a function.
pub open spec fn transaction_encoder() -> spec_fn(TransactionView) -> Seq<u8> {
    |t: TransactionView| encode_transaction(t)
}

pub open spec fn encode_outpoints(outpoints: Seq<OutPoint>) -> Seq<u8> {
    encode_list(outpoints, outpoint_encoder())
}

pub open spec fn encode_outputs(outputs: Seq<Output>) -> Seq<u8> {
    encode_list(outputs, output_encoder())
}

pub open spec fn encode_transaction(transaction: TransactionView) -> Seq<u8> {
    encode_outpoints(transaction.inputs) + encode_outputs(transaction.outputs)
}

pub open spec fn encode_transactions(transactions: Seq<TransactionView>) -> Seq<u8> {
    encode_list(transactions, transaction_encoder())
}

/// An entry of the UTXO set: the outpoint, then the output.
pub open spec fn encode_entry(entry: (OutPoint, Output)) -> Seq<u8> {
    encode_outpoint(entry.0) + encode_output(entry.1)
}

/// The encoding of entries of the UTXO set, as a function.
pub open spec fn entry_encoder() -> spec_fn((OutPoint, Output)) -> Seq<u8> {
    |e: (OutPoint, Output)| encode_entry(e)
}

/// A UTXO set as the list of its entries.
pub open spec fn encode_entries(entries: Seq<(OutPoint, Output)>) -> Seq<u8> {
    encode_list(entries, entry_encoder())
}

pub open spec fn encode_header(header: Header) -> Seq<u8> {
    header.prev_side_block_hash@ + header.merkle_root@
}

/// A block as it is submitted: header, coinbase, transactions.
pub open spec fn encode_block(
    header: Header,
    coinbase: Seq<Output>,
    transactions: Seq<TransactionView>,
) -> Seq<u8> {
    encode_header(header) + encode_outputs(coinbase) + encode_transactions(transactions)
}

/// Encoding one more element at the end appends its encoding.
pub proof fn lemma_encode_each_push<T>(items: Seq<T>, item: T, encode: spec_fn(T) -> Seq<u8>)
    ensures
        encode_each(items.push(item), encode) == encode_each(items, encode) + encode(item),
    decreases items.len(),
{
    if items.len() == 0 {
        assert(items.push(item).drop_first() =~= Seq::<T>::empty());
        assert(encode_each(Seq::<T>::empty(), encode) =~= Seq::<u8>::empty());
        assert(items.push(item).first() == item);
        assert(encode_each(items.push(item), encode) =~= encode(item));
        assert(encode_each(items, encode) + encode(item) =~= encode(item));
    } else {
        lemma_encode_each_push(items.drop_first(), item, encode);
        assert(items.push(item).drop_first() =~= items.drop_first().push(item));
        assert(encode(items.first()) + (encode_each(items.drop_first(), encode) + encode(item))
            =~= (encode(items.first()) + encode_each(items.drop_first(), encode)) + encode(item));
    }
}

/// Appends `bytes` to `out`.
pub fn append_bytes(out: &mut Vec<u8>, bytes: &[u8])
    ensures
        final(out)@ == old(out)@ + bytes@,
{
    let mut i: usize = 0;
    while i < bytes.len()
        invariant
            i <= bytes.len(),
            out@ == old(out)@ + bytes@.take(i as int),
        decreases bytes.len() - i,
    {
        out.push(bytes[i]);
        proof {
            assert(bytes@.take(i + 1) =~= bytes@.take(i as int).push(bytes@[i as int]));
            assert(out@ =~= old(out)@ + bytes@.take(i + 1));
        }
        i += 1;
    }
    proof {
        assert(bytes@.take(i as int) =~= bytes@);
    }
}

/// Appends the encoding of `outpoint` to `out`.
pub fn write_outpoint(out: &mut Vec<u8>, outpoint: &OutPoint)
    ensures
        final(out)@ == old(out)@ + encode_outpoint(*outpoint),
{
    match outpoint {
        OutPoint::Regular { transaction_number, output_number } => {
            out.push(TAG_OUTPOINT_REGULAR);
            let number = u64_to_le_bytes(*transaction_number);
            append_bytes(out, number.as_slice());
            out.push(*output_number);
            proof {
                assert(out@ =~= old(out)@ + encode_outpoint(*outpoint));
            }
        },
        OutPoint::Deposit { sequence_number } => {
            out.push(TAG_OUTPOINT_DEPOSIT);
            let number = u64_to_le_bytes(*sequence_number);
            append_bytes(out, number.as_slice());
            proof {
                assert(out@ =~= old(out)@ + encode_outpoint(*outpoint));
            }
        },
        OutPoint::Coinbase { block_number, output_number } => {
            out.push(TAG_OUTPOINT_COINBASE);
            let number = u32_to_le_bytes(*block_number);
            append_bytes(out, number.as_slice());
            out.push(*output_number);
            proof {
                assert(out@ =~= old(out)@ + encode_outpoint(*outpoint));
            }
        },
    }
}

/// Appends the encoding of `output` to `out`.
pub fn write_output(out: &mut Vec<u8>, output: &Output)
    ensures
        final(out)@ == old(out)@ + encode_output(*output),
{
    match output {
        Output::Regular { address, value } => {
            out.push(TAG_OUTPUT_REGULAR);
            append_bytes(out, address.as_slice());
            let amount = u64_to_le_bytes(*value);
            append_bytes(out, amount.as_slice());
            proof {
                assert(out@ =~= old(out)@ + encode_output(*output));
            }
        },
        Output::Withdrawal { address, main_address, value, fee } => {
            out.push(TAG_OUTPUT_WITHDRAWAL);
            append_bytes(out, address.as_slice());
            append_bytes(out, main_address.as_slice());
            let amount = u64_to_le_bytes(*value);
            append_bytes(out, amount.as_slice());
            let amount = u64_to_le_bytes(*fee);
            append_bytes(out, amount.as_slice());
            proof {
                assert(out@ =~= old(out)@ + encode_output(*output));
            }
        },
    }
}

/// Appends the encoding of a list of outpoints to `out`.
pub fn write_outpoints(out: &mut Vec<u8>, outpoints: &[OutPoint])
    ensures
        final(out)@ == old(out)@ + encode_outpoints(outpoints@),
{
    let ghost encode = outpoint_encoder();
    let count = u64_to_le_bytes(outpoints.len() as u64);
    append_bytes(out, count.as_slice());
    let mut i: usize = 0;
    proof {
        assert(outpoints@.take(0) =~= Seq::<OutPoint>::empty());
        assert(out@ =~= old(out)@ + spec_u64_to_le_bytes(outpoints@.len() as u64) + encode_each(
            outpoints@.take(0),
            encode,
        ));
    }
    while i < outpoints.len()
        invariant
            i <= outpoints.len(),
            encode == outpoint_encoder(),
            out@ == old(out)@ + spec_u64_to_le_bytes(outpoints@.len() as u64) + encode_each(
                outpoints@.take(i as int),
                encode,
            ),
        decreases outpoints.len() - i,
    {
        let ghost before = out@;
        write_outpoint(out, &outpoints[i]);
        proof {
            lemma_encode_each_push(outpoints@.take(i as int), outpoints@[i as int], encode);
            assert(outpoints@.take(i + 1) =~= outpoints@.take(i as int).push(outpoints@[i as int]));
            assert(out@ =~= old(out)@ + spec_u64_to_le_bytes(outpoints@.len() as u64)
                + encode_each(outpoints@.take(i + 1), encode));
        }
        i += 1;
    }
    proof {
        assert(outpoints@.take(i as int) =~= outpoints@);
        assert(out@ =~= old(out)@ + encode_outpoints(outpoints@));
    }
}

/// Appends the encoding of a list of outputs to `out`.
pub fn write_outputs(out: &mut Vec<u8>, outputs: &[Output])
    ensures
        final(out)@ == old(out)@ + encode_outputs(outputs@),
{
    let ghost encode = output_encoder();
    let count = u64_to_le_bytes(outputs.len() as u64);
    append_bytes(out, count.as_slice());
    let mut i: usize = 0;
    proof {
        assert(outputs@.take(0) =~= Seq::<Output>::empty());
        assert(out@ =~= old(out)@ + spec_u64_to_le_bytes(outputs@.len() as u64) + encode_each(
            outputs@.take(0),
            encode,
        ));
    }
    while i < outputs.len()
        invariant
            i <= outputs.len(),
            encode == output_encoder(),
            out@ == old(out)@ + spec_u64_to_le_bytes(outputs@.len() as u64) + encode_each(
                outputs@.take(i as int),
                encode,
            ),
        decreases outputs.len() - i,
    {
        write_output(out, &outputs[i]);
        proof {
            lemma_encode_each_push(outputs@.take(i as int), outputs@[i as int], encode);
            assert(outputs@.take(i + 1) =~= outputs@.take(i as int).push(outputs@[i as int]));
            assert(out@ =~= old(out)@ + spec_u64_to_le_bytes(outputs@.len() as u64) + encode_each(
                outputs@.take(i + 1),
                encode,
            ));
        }
        i += 1;
    }
    proof {
        assert(outputs@.take(i as int) =~= outputs@);
        assert(out@ =~= old(out)@ + encode_outputs(outputs@));
    }
}

/// Appends the encoding of `transaction` to `out`.
pub fn write_transaction(out: &mut Vec<u8>, transaction: &Transaction)
    ensures
        final(out)@ == old(out)@ + encode_transaction(transaction@),
{
    write_outpoints(out, transaction.inputs.as_slice());
    write_outputs(out, transaction.outputs.as_slice());
    proof {
        assert(out@ =~= old(out)@ + encode_transaction(transaction@));
    }
}

/// Appends the encoding of a list of transactions to `out`.
pub fn write_transactions(out: &mut Vec<u8>, transactions: &[Transaction])
    ensures
        final(out)@ == old(out)@ + encode_transactions(transaction_views(transactions@)),
{
    let ghost encode = transaction_encoder();
    let ghost views = transaction_views(transactions@);
    let count = u64_to_le_bytes(transactions.len() as u64);
    append_bytes(out, count.as_slice());
    let mut i: usize = 0;
    proof {
        assert(views.take(0) =~= Seq::<TransactionView>::empty());
        assert(out@ =~= old(out)@ + spec_u64_to_le_bytes(views.len() as u64) + encode_each(
            views.take(0),
            encode,
        ));
    }
    while i < transactions.len()
        invariant
            i <= transactions.len(),
            encode == transaction_encoder(),
            views == transaction_views(transactions@),
            out@ == old(out)@ + spec_u64_to_le_bytes(views.len() as u64) + encode_each(
                views.take(i as int),
                encode,
            ),
        decreases transactions.len() - i,
    {
        write_transaction(out, &transactions[i]);
        proof {
            lemma_encode_each_push(views.take(i as int), views[i as int], encode);
            assert(views.take(i + 1) =~= views.take(i as int).push(views[i as int]));
            assert(out@ =~= old(out)@ + spec_u64_to_le_bytes(views.len() as u64) + encode_each(
                views.take(i + 1),
                encode,
            ));
        }
        i += 1;
    }
    proof {
        assert(views.take(i as int) =~= views);
        assert(out@ =~= old(out)@ + encode_transactions(views));
    }
}

/// The canonical bytes of an outpoint.
pub fn serialize_outpoint(outpoint: &OutPoint) -> (r: Vec<u8>)
    ensures
        r@ == encode_outpoint(*outpoint),
{
    let mut out: Vec<u8> = Vec::new();
    write_outpoint(&mut out, outpoint);
    proof {
        assert(out@ =~= encode_outpoint(*outpoint));
    }
    out
}

/// The canonical bytes of a transaction.
pub fn serialize_transaction(transaction: &Transaction) -> (r: Vec<u8>)
    ensures
        r@ == encode_transaction(transaction@),
{
    let mut out: Vec<u8> = Vec::new();
    write_transaction(&mut out, transaction);
    proof {
        assert(out@ =~= encode_transaction(transaction@));
    }
    out
}

/// The canonical bytes of a list of transactions.
pub fn serialize_transactions(transactions: &[Transaction]) -> (r: Vec<u8>)
    ensures
        r@ == encode_transactions(transaction_views(transactions@)),
{
    let mut out: Vec<u8> = Vec::new();
    write_transactions(&mut out, transactions);
    proof {
        assert(out@ =~= encode_transactions(transaction_views(transactions@)));
    }
    out
}

/// The canonical bytes of a header.
pub fn serialize_header(header: &Header) -> (r: Vec<u8>)
    ensures
        r@ == encode_header(*header),
{
    let mut out: Vec<u8> = Vec::new();
    append_bytes(&mut out, header.prev_side_block_hash.as_slice());
    append_bytes(&mut out, header.merkle_root.as_slice());
    proof {
        assert(out@ =~= encode_header(*header));
    }
    out
}

/// The canonical bytes of a block: header, coinbase, transactions.
pub fn serialize_block(header: &Header, coinbase: &[Output], transactions: &[Transaction]) -> (r:
    Vec<u8>)
    ensures
        r@ == encode_block(*header, coinbase@, transaction_views(transactions@)),
{
    let mut out = serialize_header(header);
    write_outputs(&mut out, coinbase);
    write_transactions(&mut out, transactions);
    out
}

/// The canonical bytes of a list of entries of the UTXO set.
pub fn serialize_entries(entries: &[(OutPoint, Output)]) -> (r: Vec<u8>)
    ensures
        r@ == encode_entries(entries@),
{
    let ghost encode = entry_encoder();
    let mut out = u64_to_le_bytes(entries.len() as u64);
    let mut i: usize = 0;
    proof {
        assert(entries@.take(0) =~= Seq::<(OutPoint, Output)>::empty());
        assert(out@ =~= spec_u64_to_le_bytes(entries@.len() as u64) + encode_each(
            entries@.take(0),
            encode,
        ));
    }
    while i < entries.len()
        invariant
            i <= entries.len(),
            encode == entry_encoder(),
            out@ == spec_u64_to_le_bytes(entries@.len() as u64) + encode_each(
                entries@.take(i as int),
                encode,
            ),
        decreases entries.len() - i,
    {
        let ghost before = out@;
        write_outpoint(&mut out, &entries[i].0);
        write_output(&mut out, &entries[i].1);
        proof {
            lemma_encode_each_push(entries@.take(i as int), entries@[i as int], encode);
            assert(entries@.take(i + 1) =~= entries@.take(i as int).push(entries@[i as int]));
            assert(out@ =~= before + encode_entry(entries@[i as int]));
        }
        i += 1;
    }
    proof {
        assert(entries@.take(i as int) =~= entries@);
    }
    out
}

} // verus!
