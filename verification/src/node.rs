//! The node: the state, as the request handlers and the sync with the
//! parent chain use it.

use vstd::prelude::*;
use crate::adapter::hash_from_bytes;
use crate::archive::zero_hash;
use crate::hashing::{header_hash, transaction_hash, Hashable};
use crate::mempool::{contains_hash, hashes_at, selection, MempoolView};
use crate::state::{selected_transactions, State, StateView};
use crate::tables::{entries_map, entry_keys};
use crate::types::{
    Deposit, Error, Header, MainBlock, OutPoint, Output, Transaction, transaction_views,
    HASH_LENGTH,
};
use crate::utxos::{payable, transaction_fee};

verus! {

pub struct Node {
    state: State,
}

impl View for Node {
    type V = StateView;

    closed spec fn view(&self) -> StateView {
        self.state@
    }
}

impl StateView {
    /// The height and the hash of the newest sidechain block; height 0 and
    /// 32 zero bytes where none is connected.
    pub open spec fn tip(self) -> (u32, Seq<u8>) {
        if self.archive.headers.len() == 0 {
            (0u32, zero_hash())
        } else {
            (self.archive.headers.len() as u32, header_hash(self.archive.headers.last().0))
        }
    }
}

impl Node {
    pub closed spec fn wf(&self) -> bool {
        self.state.wf()
    }

    /// In a well-formed node the stores are consistent and agree.
    pub proof fn lemma_wf_consistent(&self)
        requires
            self.wf(),
        ensures
            self@.consistent(),
    {
        self.state.lemma_wf_consistent();
    }

    /// A node over `state`.
    pub fn new(state: State) -> (r: Node)
        requires
            state.wf(),
        ensures
            r.wf(),
            r@ == state@,
    {
        Node { state }
    }

    /// Whether the node has yet to make its initial sync.
    pub fn is_clean(&self) -> (r: bool)
        ensures
            r == (self@.utxos.utxos == Map::<OutPoint, Output>::empty()),
    {
        self.state.is_clean()
    }

    /// Selects anew the transactions for the next block and returns them.
    pub fn collect_transactions(&mut self) -> (r: Vec<Transaction>)
        requires
            old(self).wf(),
        ensures
            final(self).wf(),
            final(self)@ == (StateView {
                mempool: MempoolView {
                    pending_selected: hashes_at(
                        old(self)@.mempool.entries,
                        selection(old(self)@.mempool.entries),
                    ),
                    ..old(self)@.mempool
                },
                ..old(self)@
            }),
            transaction_views(r@) == selected_transactions(old(self)@.mempool.entries),
    {
        self.state.collect_transactions()
    }

    /// The height and the hash of the newest sidechain block.
    pub fn get_chain_tip(&self) -> (r: (u32, [u8; HASH_LENGTH]))
        requires
            self.wf(),
        ensures
            r.0 == self@.tip().0,
            r.1@ == self@.tip().1,
    {
        match self.state.get_chain_tip() {
            Some((block_height, (header, _range))) => (block_height, header.hash()),
            None => {
                let zero = [0u8; HASH_LENGTH];
                proof {
                    assert(zero@ =~= zero_hash());
                }
                (0, zero)
            },
        }
    }

    /// The whole UTXO set: each outpoint once, with its output.
    pub fn get_utxo_set(&self) -> (r: Vec<(OutPoint, Output)>)
        requires
            self.wf(),
        ensures
            entry_keys(r@).no_duplicates(),
            entries_map(r@) == self@.utxos.utxos,
    {
        self.state.get_utxo_set()
    }

    /// The pending withdrawal bundle.
    pub fn get_withdrawal_bundle(&self) -> (r: Vec<(OutPoint, Output)>)
        requires
            self.wf(),
        ensures
            entry_keys(r@).no_duplicates(),
            entries_map(r@) == self@.utxos.utxos.restrict(self@.utxos.locked_withdrawals),
    {
        self.state.get_withdrawal_bundle()
    }

    /// Puts `transaction`, submitted now, into the mempool.
    pub fn submit_transaction(&mut self, transaction: &Transaction) -> (r: Result<(), Error>)
        requires
            old(self).wf(),
        ensures
            final(self).wf(),
            payable(old(self)@.utxos.utxos, transaction@) && contains_hash(
                old(self)@.mempool.entries,
                transaction_hash(transaction@),
            ) ==> r is Ok,
            match r {
                Ok(()) => payable(old(self)@.utxos.utxos, transaction@) && exists|timestamp: u64|
                    final(self)@ == (StateView {
                        mempool: #[trigger] old(self)@.mempool.submit(
                            transaction@,
                            transaction_fee(old(self)@.utxos.utxos, transaction@) as u64,
                            timestamp,
                        ),
                        ..old(self)@
                    }),
                Err(e) => final(self)@ == old(self)@ && (if payable(
                    old(self)@.utxos.utxos,
                    transaction@,
                ) {
                    e == Error::StoreFailure
                } else {
                    e == Error::InvalidTransaction
                }),
            },
    {
        self.state.submit_transaction(transaction)
    }

    /// Puts `transaction`, submitted at `timestamp`, into the mempool.
    pub fn submit_transaction_at(&mut self, transaction: &Transaction, timestamp: u64) -> (r: Result<
        (),
        Error,
    >)
        requires
            old(self).wf(),
        ensures
            final(self).wf(),
            match r {
                Ok(()) => payable(old(self)@.utxos.utxos, transaction@) && final(self)@ == (StateView {
                    mempool: old(self)@.mempool.submit(
                        transaction@,
                        transaction_fee(old(self)@.utxos.utxos, transaction@) as u64,
                        timestamp,
                    ),
                    ..old(self)@
                }),
                Err(e) => e == Error::InvalidTransaction && !payable(
                    old(self)@.utxos.utxos,
                    transaction@,
                ) && final(self)@ == old(self)@,
            },
    {
        self.state.submit_transaction_at(transaction, timestamp)
    }

    /// Connects a sidechain block that was submitted from outside.
    pub fn submit_block(&mut self, header: Header, coinbase: &[Output], transactions: &[Transaction]) -> (r:
        Result<(), Error>)
        requires
            old(self).wf(),
        ensures
            final(self).wf(),
            match r {
                Ok(()) => old(self)@.connect_error(
                    header,
                    coinbase@,
                    transaction_views(transactions@),
                ) is None && old(self)@.connected(
                    final(self)@,
                    header,
                    coinbase@,
                    transaction_views(transactions@),
                ),
                Err(e) => old(self)@.connect_error(
                    header,
                    coinbase@,
                    transaction_views(transactions@),
                ) == Some(e) && final(self)@ == old(self)@,
            },
    {
        self.state.connect(header, coinbase, transactions)
    }

    /// The initial sync, with what the parent chain's client reported:
    /// the deposits, the parent height and the parent tip. Fails, and
    /// changes nothing, unless the tip has 32 bytes.
    pub fn initial_sync(
        &mut self,
        deposits: &[Deposit],
        main_block_height: u32,
        main_chain_tip: &[u8],
    ) -> (r: Result<(), Error>)
        requires
            old(self).wf(),
        ensures
            final(self).wf(),
            match r {
                Ok(()) => main_chain_tip@.len() == HASH_LENGTH && final(self)@.utxos.main_chain_tip@
                    == main_chain_tip@ && final(self)@ == old(self)@.load_deposits(
                    deposits@,
                    main_block_height,
                    final(self)@.utxos.main_chain_tip,
                ),
                Err(e) => e == Error::StoreFailure && main_chain_tip@.len() != HASH_LENGTH
                    && final(self)@ == old(self)@,
            },
    {
        let tip = match hash_from_bytes(main_chain_tip) {
            Some(tip) => tip,
            None => {
                return Err(Error::StoreFailure);
            },
        };
        self.state.load_deposits(deposits, main_block_height, &tip);
        Ok(())
    }

    /// Connects a parent block.
    pub fn connect_main_block(&mut self, block: &MainBlock) -> (r: Result<(), Error>)
        requires
            old(self).wf(),
        ensures
            final(self).wf(),
            match r {
                Ok(()) => old(self)@.main_block_error(*block) is None && final(self)@
                    == old(self)@.connect_main_block(*block),
                Err(e) => old(self)@.main_block_error(*block) == Some(e) && final(self)@
                    == old(self)@,
            },
    {
        self.state.connect_main_block(block)
    }

    /// The state of the node.
    pub fn state(&self) -> (r: &State)
        requires
            self.wf(),
        ensures
            r.wf(),
            r@ == self@,
    {
        &self.state
    }
}

} // verus!
