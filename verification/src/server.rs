//! The request handlers: each takes what came from outside, as bytes or as
//! reported records, and answers from the node.

use vstd::prelude::*;
use crate::adapter::{block_matches, main_block_from_raw, typed, RawMainBlock};
use crate::codec::{
    append_bytes, encode_entries, encode_transactions, serialize_entries, serialize_transactions,
};
use crate::decode::{
    block_of, decode_block, decode_transaction, is_block, is_transaction, transaction_of,
};
use crate::hashing::transaction_hash;
use crate::mempool::{
    contains_hash, hashes_at, lemma_consistent_by_entries, lemma_submit_consistent, selection, MempoolView,
};
use crate::node::Node;
use crate::state::{
    lemma_connect_keeps_consistent, lemma_consistent_with_mempool,
    lemma_load_deposits_keeps_consistent, lemma_main_block_keeps_consistent,
    selected_transactions, StateView,
};
use crate::tables::{entries_map, entry_keys};
use crate::types::{Deposit, Error, MainBlock, OutPoint, Output, HASH_LENGTH};
use crate::utxos::{payable, transaction_fee};

verus! {

/// What can come from outside and change the state.
#[derive(Clone, Debug, PartialEq, Eq)]
pub enum Event {
    /// The initial sync with the parent chain.
    InitialSync { deposits: Vec<Deposit>, main_block_height: u32, main_chain_tip: Vec<u8> },
    /// A parent block, as reported.
    ConnectMainBlock { main_block: RawMainBlock },
    /// A transaction in its canonical bytes, with the time it came in.
    SubmitTransaction { transaction: Vec<u8>, timestamp: u64 },
    /// A sidechain block in its canonical bytes.
    SubmitBlock { block: Vec<u8> },
    /// A request for the transactions of the next block.
    CollectTransactions,
}

pub struct Plain {
    node: Node,
}

impl View for Plain {
    type V = StateView;

    closed spec fn view(&self) -> StateView {
        self.node@
    }
}

impl StateView {
    /// The state after a transaction came in as `transaction` at
    /// `timestamp`, and the answer. Bytes that encode no transaction are a
    /// store failure; a transaction that the UTXO set cannot pay for is
    /// invalid; any other goes into the mempool with the fee that it pays.
    pub open spec fn submit_outcome(self, transaction: Seq<u8>, timestamp: u64) -> (
        StateView,
        Result<(), Error>,
    ) {
        if !is_transaction(transaction) {
            (self, Err(Error::StoreFailure))
        } else if !payable(self.utxos.utxos, transaction_of(transaction)) {
            (self, Err(Error::InvalidTransaction))
        } else {
            (
                StateView {
                    mempool: self.mempool.submit(
                        transaction_of(transaction),
                        transaction_fee(self.utxos.utxos, transaction_of(transaction)) as u64,
                        timestamp,
                    ),
                    ..self
                },
                Ok(()),
            )
        }
    }

    /// Whether `after` and `r` are the state and the answer after a block
    /// came in as `block`. Bytes that encode no block are a store failure.
    pub open spec fn block_step(self, after: StateView, r: Result<(), Error>, block: Seq<u8>) -> bool {
        match r {
            Ok(()) => is_block(block) && self.connect_error(
                block_of(block).0,
                block_of(block).1,
                block_of(block).2,
            ) is None && self.connected(
                after,
                block_of(block).0,
                block_of(block).1,
                block_of(block).2,
            ),
            Err(e) => after == self && (if is_block(block) {
                self.connect_error(block_of(block).0, block_of(block).1, block_of(block).2)
                    == Some(e)
            } else {
                e == Error::StoreFailure
            }),
        }
    }

    /// Whether `after` and `r` are the state and the answer after the
    /// parent block `block` was reported. A report that cannot be typed is
    /// a store failure.
    pub open spec fn main_block_step(
        self,
        after: StateView,
        r: Result<(), Error>,
        block: RawMainBlock,
    ) -> bool {
        match r {
            Ok(()) => typed(block) && exists|typed_block: MainBlock| #[trigger]
                block_matches(typed_block, block) && self.main_block_error(typed_block) is None
                    && after == self.connect_main_block(typed_block),
            Err(e) => after == self && (if typed(block) {
                exists|typed_block: MainBlock| #[trigger]
                    block_matches(typed_block, block) && self.main_block_error(typed_block)
                        == Some(e)
            } else {
                e == Error::StoreFailure
            }),
        }
    }

    /// Whether `after` and `r` are the state and the answer after the
    /// initial sync. A parent tip that has not 32 bytes is a store failure.
    pub open spec fn sync_step(
        self,
        after: StateView,
        r: Result<(), Error>,
        deposits: Seq<Deposit>,
        main_block_height: u32,
        main_chain_tip: Seq<u8>,
    ) -> bool {
        match r {
            Ok(()) => main_chain_tip.len() == HASH_LENGTH && after.utxos.main_chain_tip@
                == main_chain_tip && after == self.load_deposits(
                deposits,
                main_block_height,
                after.utxos.main_chain_tip,
            ),
            Err(e) => e == Error::StoreFailure && main_chain_tip.len() != HASH_LENGTH && after
                == self,
        }
    }

    /// The state after a new selection of transactions for the next block.
    pub open spec fn collect_outcome(self) -> StateView {
        StateView {
            mempool: MempoolView {
                pending_selected: hashes_at(self.mempool.entries, selection(self.mempool.entries)),
                ..self.mempool
            },
            ..self
        }
    }

    /// Whether `after` and `r` are the state and the answer after `event`.
    pub open spec fn stepped(self, after: StateView, r: Result<(), Error>, event: Event) -> bool {
        match event {
            Event::InitialSync { deposits, main_block_height, main_chain_tip } => self.sync_step(
                after,
                r,
                deposits@,
                main_block_height,
                main_chain_tip@,
            ),
            Event::ConnectMainBlock { main_block } => self.main_block_step(after, r, main_block),
            Event::SubmitTransaction { transaction, timestamp } => after == self.submit_outcome(
                transaction@,
                timestamp,
            ).0 && r == self.submit_outcome(transaction@, timestamp).1,
            Event::SubmitBlock { block } => self.block_step(after, r, block@),
            Event::CollectTransactions => after == self.collect_outcome() && r is Ok,
        }
    }
}

/// Whatever event comes in and however it is answered, the state that
/// follows a consistent state is consistent: no outpoint is both unlocked
/// and locked, the archived transactions are those that the headers'
/// ranges cover, and the side block height is the number of archived
/// blocks.
pub proof fn lemma_step_keeps_consistent(
    before: StateView,
    after: StateView,
    r: Result<(), Error>,
    event: Event,
)
    requires
        before.consistent(),
        before.stepped(after, r, event),
    ensures
        after.consistent(),
{
    match event {
        Event::InitialSync { deposits, main_block_height, main_chain_tip } => {
            if r is Ok {
                lemma_load_deposits_keeps_consistent(
                    before,
                    deposits@,
                    main_block_height,
                    after.utxos.main_chain_tip,
                );
            }
        },
        Event::ConnectMainBlock { main_block } => {
            if r is Ok {
                let typed_block = choose|typed_block: MainBlock| #[trigger]
                    block_matches(typed_block, main_block) && before.main_block_error(
                        typed_block,
                    ) is None && after == before.connect_main_block(typed_block);
                lemma_main_block_keeps_consistent(before, typed_block);
            }
        },
        Event::SubmitTransaction { transaction, timestamp } => {
            if r is Ok {
                lemma_submit_consistent(
                    before.mempool,
                    transaction_of(transaction@),
                    transaction_fee(before.utxos.utxos, transaction_of(transaction@)) as u64,
                    timestamp,
                );
                lemma_consistent_with_mempool(before, after);
            }
        },
        Event::SubmitBlock { block } => {
            if r is Ok {
                lemma_connect_keeps_consistent(
                    before,
                    after,
                    block_of(block@).0,
                    block_of(block@).1,
                    block_of(block@).2,
                );
            }
        },
        Event::CollectTransactions => {
            lemma_consistent_by_entries(before.mempool, after.mempool);
            lemma_consistent_with_mempool(before, after);
        },
    }
}

impl Plain {
    pub closed spec fn wf(&self) -> bool {
        self.node.wf()
    }

    /// In a well-formed server the stores are consistent and agree.
    pub proof fn lemma_wf_consistent(&self)
        requires
            self.wf(),
        ensures
            self@.consistent(),
    {
        self.node.lemma_wf_consistent();
    }

    pub fn new(node: Node) -> (r: Plain)
        requires
            node.wf(),
        ensures
            r.wf(),
            r@ == node@,
    {
        Plain { node }
    }

    /// Takes a transaction in its canonical bytes and puts it into the
    /// mempool as submitted at `timestamp`.
    pub fn submit_transaction_at(&mut self, transaction: &[u8], timestamp: u64) -> (r: Result<
        (),
        Error,
    >)
        requires
            old(self).wf(),
        ensures
            final(self).wf(),
            final(self)@ == old(self)@.submit_outcome(transaction@, timestamp).0,
            r == old(self)@.submit_outcome(transaction@, timestamp).1,
    {
        let decoded = match decode_transaction(transaction) {
            Some(decoded) => decoded,
            None => {
                return Err(Error::StoreFailure);
            },
        };
        match self.node.submit_transaction_at(&decoded, timestamp) {
            Ok(()) => Ok(()),
            Err(e) => Err(e),
        }
    }

    /// Takes a transaction in its canonical bytes and puts it into the
    /// mempool as submitted now. Bytes that encode no transaction are a
    /// store failure, and a transaction that the UTXO set cannot pay for
    /// is invalid. A transaction that the mempool holds already changes
    /// nothing and succeeds. For any other the clock is read: where it
    /// reads a time before the Unix epoch, that is a store failure and
    /// nothing changes.
    pub fn submit_transaction(&mut self, transaction: &[u8]) -> (r: Result<(), Error>)
        requires
            old(self).wf(),
        ensures
            final(self).wf(),
            !is_transaction(transaction@) ==> r == Err::<(), Error>(Error::StoreFailure)
                && final(self)@ == old(self)@,
            is_transaction(transaction@) && !payable(
                old(self)@.utxos.utxos,
                transaction_of(transaction@),
            ) ==> r == Err::<(), Error>(Error::InvalidTransaction) && final(self)@ == old(self)@,
            is_transaction(transaction@) && payable(
                old(self)@.utxos.utxos,
                transaction_of(transaction@),
            ) ==> (exists|timestamp: u64|
                final(self)@ == (#[trigger] old(self)@.submit_outcome(transaction@, timestamp)).0
                    && r == Ok::<(), Error>(())) || (final(self)@ == old(self)@ && r == Err::<
                (),
                Error,
            >(Error::StoreFailure)),
            is_transaction(transaction@) && payable(
                old(self)@.utxos.utxos,
                transaction_of(transaction@),
            ) && contains_hash(
                old(self)@.mempool.entries,
                transaction_hash(transaction_of(transaction@)),
            ) ==> r is Ok,
    {
        let decoded = match decode_transaction(transaction) {
            Some(decoded) => decoded,
            None => {
                return Err(Error::StoreFailure);
            },
        };
        let r = match self.node.submit_transaction(&decoded) {
            Ok(()) => Ok(()),
            Err(e) => Err(e),
        };
        proof {
            if r is Ok {
                let timestamp = choose|timestamp: u64|
                    self@ == (StateView {
                        mempool: #[trigger] old(self)@.mempool.submit(
                            decoded@,
                            transaction_fee(old(self)@.utxos.utxos, decoded@) as u64,
                            timestamp,
                        ),
                        ..old(self)@
                    });
                let outcome = old(self)@.submit_outcome(transaction@, timestamp);
                assert(self@ == outcome.0);
            }
        }
        r
    }

    /// Takes a block in its canonical bytes and connects it.
    pub fn submit_block(&mut self, block: &[u8]) -> (r: Result<(), Error>)
        requires
            old(self).wf(),
        ensures
            final(self).wf(),
            old(self)@.block_step(final(self)@, r, block@),
    {
        let (header, coinbase, transactions) = match decode_block(block) {
            Some(decoded) => decoded,
            None => {
                return Err(Error::StoreFailure);
            },
        };
        self.node.submit_block(header, coinbase.as_slice(), transactions.as_slice())
    }

    /// Selects anew the transactions for the next block and returns them
    /// as the canonical bytes of their list.
    pub fn collect_transactions(&mut self) -> (r: Vec<u8>)
        requires
            old(self).wf(),
        ensures
            final(self).wf(),
            final(self)@ == old(self)@.collect_outcome(),
            r@ == encode_transactions(selected_transactions(old(self)@.mempool.entries)),
    {
        let transactions = self.node.collect_transactions();
        serialize_transactions(transactions.as_slice())
    }

    /// The height and the hash of the newest sidechain block.
    pub fn get_chain_tip(&self) -> (r: (u32, Vec<u8>))
        requires
            self.wf(),
        ensures
            r.0 == self@.tip().0,
            r.1@ == self@.tip().1,
    {
        let (block_height, block_hash) = self.node.get_chain_tip();
        let mut bytes: Vec<u8> = Vec::new();
        append_bytes(&mut bytes, block_hash.as_slice());
        proof {
            assert(bytes@ =~= block_hash@);
        }
        (block_height, bytes)
    }

    /// Takes a parent block as the parent chain's client reports it and
    /// connects it.
    pub fn connect_main_block(&mut self, block: &RawMainBlock) -> (r: Result<(), Error>)
        requires
            old(self).wf(),
        ensures
            final(self).wf(),
            old(self)@.main_block_step(final(self)@, r, *block),
    {
        let typed_block = match main_block_from_raw(block) {
            Some(typed_block) => typed_block,
            None => {
                return Err(Error::StoreFailure);
            },
        };
        let r = self.node.connect_main_block(&typed_block);
        proof {
            assert(block_matches(typed_block, *block));
        }
        r
    }

    /// The UTXO set as the canonical bytes of the list of its entries,
    /// each outpoint once.
    pub fn get_utxo_set(&self) -> (r: Vec<u8>)
        requires
            self.wf(),
        ensures
            exists|entries: Seq<(OutPoint, Output)>|
                entry_keys(entries).no_duplicates() && entries_map(entries) == self@.utxos.utxos
                    && r@ == #[trigger] encode_entries(entries),
    {
        let entries = self.node.get_utxo_set();
        let bytes = serialize_entries(entries.as_slice());
        proof {
            assert(entry_keys(entries@).no_duplicates() && entries_map(entries@)
                == self@.utxos.utxos && bytes@ == encode_entries(entries@));
        }
        bytes
    }

    /// Lets one event change the state: the same state follows from the
    /// same events in the same order.
    pub fn apply(&mut self, event: &Event) -> (r: Result<(), Error>)
        requires
            old(self).wf(),
        ensures
            final(self).wf(),
            old(self)@.stepped(final(self)@, r, *event),
    {
        match event {
            Event::InitialSync { deposits, main_block_height, main_chain_tip } => {
                self.node.initial_sync(
                    deposits.as_slice(),
                    *main_block_height,
                    main_chain_tip.as_slice(),
                )
            },
            Event::ConnectMainBlock { main_block } => self.connect_main_block(main_block),
            Event::SubmitTransaction { transaction, timestamp } => {
                self.submit_transaction_at(transaction.as_slice(), *timestamp)
            },
            Event::SubmitBlock { block } => self.submit_block(block.as_slice()),
            Event::CollectTransactions => {
                let _ = self.collect_transactions();
                Ok(())
            },
        }
    }

    /// The node behind the handlers.
    pub fn node(&self) -> (r: &Node)
        requires
            self.wf(),
        ensures
            r.wf(),
            r@ == self@,
    {
        &self.node
    }
}

} // verus!
