//! Hashes of canonical encodings.

use vstd::prelude::*;
use crate::codec::{
    encode_header, encode_transaction, serialize_header, serialize_transaction, append_bytes,
};
use crate::decode::{lemma_header_injective, lemma_transaction_injective, sized};
use crate::types::{Header, Transaction, TransactionView, transaction_views, HASH_LENGTH};

verus! {

/// The BLAKE3 digest of a byte string: 32 bytes.
pub uninterp spec fn blake3_digest(input: Seq<u8>) -> Seq<u8>;

/// Calls `blake3::hash` and converts the digest to its 32 bytes.
///
/// Trusted: the bytes returned are the BLAKE3 digest of `input`, a function
/// of the input bytes alone.
#[verifier::external_body]
pub(crate) fn blake3_hash(input: &[u8]) -> (digest: [u8; HASH_LENGTH])
    ensures
        digest@ == blake3_digest(input@),
{
    blake3::hash(input).into()
}

/// The hash that identifies a transaction.
pub open spec fn transaction_hash(transaction: TransactionView) -> Seq<u8> {
    blake3_digest(encode_transaction(transaction))
}

/// The hash that identifies a header.
pub open spec fn header_hash(header: Header) -> Seq<u8> {
    blake3_digest(encode_header(header))
}

/// The hashes of a list of transactions, one after the other.
pub open spec fn concat_transaction_hashes(transactions: Seq<TransactionView>) -> Seq<u8>
    decreases transactions.len(),
{
    if transactions.len() == 0 {
        Seq::<u8>::empty()
    } else {
        concat_transaction_hashes(transactions.drop_last()) + transaction_hash(
            transactions.last(),
        )
    }
}

/// The root that commits a header to its transactions: the digest of their
/// hashes, concatenated in order.
pub open spec fn merkle_root_of(transactions: Seq<TransactionView>) -> Seq<u8> {
    blake3_digest(concat_transaction_hashes(transactions))
}

/// A header's hash depends on its canonical bytes alone: a header with
/// the same bytes is the same header and has the same hash, which is the
/// digest of those bytes.
pub proof fn lemma_header_hash_of_bytes(header: Header, again: Header)
    requires
        encode_header(again) == encode_header(header),
    ensures
        again == header,
        header_hash(again) == header_hash(header),
        header_hash(header) == blake3_digest(encode_header(header)),
{
    lemma_header_injective(again, header);
}

/// A transaction's hash depends on its canonical bytes alone.
pub proof fn lemma_transaction_hash_of_bytes(transaction: TransactionView, again: TransactionView)
    requires
        sized(transaction),
        sized(again),
        encode_transaction(again) == encode_transaction(transaction),
    ensures
        again == transaction,
        transaction_hash(again) == transaction_hash(transaction),
        transaction_hash(transaction) == blake3_digest(encode_transaction(transaction)),
{
    lemma_transaction_injective(again, transaction);
}

/// A value with a canonical encoding, identified by the digest of it.
pub trait Hashable {
    /// The canonical encoding of the value.
    spec fn canonical_bytes(&self) -> Seq<u8>;

    /// The BLAKE3 digest of the canonical encoding.
    fn hash(&self) -> (r: [u8; HASH_LENGTH])
        ensures
            r@ == blake3_digest(self.canonical_bytes()),
    ;
}

impl Hashable for Transaction {
    open spec fn canonical_bytes(&self) -> Seq<u8> {
        encode_transaction(self@)
    }

    fn hash(&self) -> (r: [u8; HASH_LENGTH]) {
        let bytes = serialize_transaction(self);
        blake3_hash(bytes.as_slice())
    }
}

impl Hashable for Header {
    open spec fn canonical_bytes(&self) -> Seq<u8> {
        encode_header(*self)
    }

    fn hash(&self) -> (r: [u8; HASH_LENGTH]) {
        let bytes = serialize_header(self);
        blake3_hash(bytes.as_slice())
    }
}

/// Computes the root that a header over `transactions` must carry.
pub fn compute_merkle_root(transactions: &[Transaction]) -> (r: [u8; HASH_LENGTH])
    ensures
        r@ == merkle_root_of(transaction_views(transactions@)),
{
    let ghost views = transaction_views(transactions@);
    let mut hashes: Vec<u8> = Vec::new();
    let mut i: usize = 0;
    proof {
        assert(views.take(0) =~= Seq::<TransactionView>::empty());
    }
    while i < transactions.len()
        invariant
            i <= transactions.len(),
            views == transaction_views(transactions@),
            hashes@ == concat_transaction_hashes(views.take(i as int)),
        decreases transactions.len() - i,
    {
        let hash = transactions[i].hash();
        append_bytes(&mut hashes, hash.as_slice());
        proof {
            assert(views.take(i + 1).drop_last() =~= views.take(i as int));
        }
        i += 1;
    }
    proof {
        assert(views.take(i as int) =~= views);
    }
    blake3_hash(hashes.as_slice())
}

impl Header {
    /// Whether the header's merkle root commits to exactly `transactions`.
    pub fn validate_transactions(&self, transactions: &[Transaction]) -> (r: bool)
        ensures
            r == (self.merkle_root@ == merkle_root_of(transaction_views(transactions@))),
    {
        let root = compute_merkle_root(transactions);
        crate::types::bytes_equal(&self.merkle_root, &root)
    }
}

} // verus!
