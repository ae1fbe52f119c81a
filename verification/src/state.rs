//! The coordinator: every event from outside changes the three stores
//! together, or none of them.

use vstd::prelude::*;
use crate::amounts::{outputs_value, total};
use crate::archive::{
    hash_set, lemma_archive_connect_consistent, lemma_archive_connect_then_disconnect,
    lemma_archive_disconnect_consistent, lemma_consistent_whatever_committed,
    lemma_range_ends_grow, Archive, ArchiveView,
};
use crate::hashing::{header_hash, transaction_hash};
use crate::mempool::{
    contains_hash, hashes_at, index_of_hash, lemma_connect_consistent,
    lemma_disconnect_consistent, lemma_pack, pending_transactions, selection, EntryView, Mempool,
    MempoolView,
};
use crate::tables::{entries_map, entry_keys, regular_below};
use crate::types::{
    Deposit, Error, Header, MainBlock, OutPoint, Output, Transaction, TransactionView,
    WithdrawalBundleEvent, WithdrawalBundleEventType, transaction_views, HASH_LENGTH,
};
use crate::utxos::{
    block_fees, created_withdrawals, lemma_connect_then_disconnect,
    lemma_created_withdrawals_numbers, lemma_valid_block_conserves,
    lemma_valid_block_inputs, inputs_exist, payable, value_in, refundable, refunded, transaction_fee, valid_block,
    within_output_limit, Utxos, UtxosView,
};

verus! {

pub struct State {
    utxos: Utxos,
    archive: Archive,
    mempool: Mempool,
}

/// The tables of the three stores.
pub struct StateView {
    pub utxos: UtxosView,
    pub archive: ArchiveView,
    pub mempool: MempoolView,
}

impl View for State {
    type V = StateView;

    closed spec fn view(&self) -> StateView {
        StateView { utxos: self.utxos@, archive: self.archive@, mempool: self.mempool@ }
    }
}

/// The UTXO set with each deposit credited, in order.
pub open spec fn with_deposits(utxos: Map<OutPoint, Output>, deposits: Seq<Deposit>) -> Map<
    OutPoint,
    Output,
>
    decreases deposits.len(),
{
    if deposits.len() == 0 {
        utxos
    } else {
        with_deposits(utxos, deposits.drop_last()).insert(
            deposits.last().spec_outpoint(),
            deposits.last().spec_output(),
        )
    }
}

/// The UTXO store after the parent chain's verdict on the locked bundle.
pub open spec fn after_event(utxos: UtxosView, event: Option<WithdrawalBundleEvent>) -> UtxosView {
    match event {
        None => utxos,
        Some(event) => match event.withdrawal_bundle_event_type {
            WithdrawalBundleEventType::Submitted => utxos,
            WithdrawalBundleEventType::Succeeded => UtxosView {
                utxos: utxos.utxos.remove_keys(utxos.locked_withdrawals),
                locked_withdrawals: Set::empty(),
                ..utxos
            },
            WithdrawalBundleEventType::Failed => UtxosView {
                utxos: refunded(utxos.utxos, utxos.locked_withdrawals),
                locked_withdrawals: Set::empty(),
                ..utxos
            },
        },
    }
}

/// Whether the event says that the parent chain rejected the bundle.
pub open spec fn is_failure(event: Option<WithdrawalBundleEvent>) -> bool {
    match event {
        Some(event) => event.withdrawal_bundle_event_type == WithdrawalBundleEventType::Failed,
        None => false,
    }
}

/// The transactions that a selection over `entries` takes, in the order selected.
pub open spec fn selected_transactions(entries: Seq<EntryView>) -> Seq<TransactionView> {
    Seq::new(selection(entries).len(), |k: int| entries[selection(entries)[k]].transaction)
}

impl StateView {
    /// Whether the undo record of the block at index `i` of the archive
    /// describes that block.
    pub open spec fn journal_matches(self, i: int) -> bool {
        let record = self.utxos.journal[i];
        &&& record.block_height == i + 1
        &&& record.coinbase_outputs == self.archive.coinbases[i].len()
        &&& record.transaction_number == self.archive.range_start(i)
        &&& record.side_block_height == i
    }

    /// Each store is consistent, and the stores agree: the side block
    /// height is the number of archived blocks, the transaction counter is
    /// the number of archived transactions, and each archived block has
    /// its undo record in the UTXO store and in the mempool.
    pub open spec fn consistent(self) -> bool {
        &&& self.utxos.consistent()
        &&& self.archive.consistent()
        &&& self.mempool.consistent()
        &&& self.utxos.side_block_height == self.archive.headers.len()
        &&& self.utxos.transaction_number == self.archive.transactions.len()
        &&& self.utxos.journal.len() == self.archive.headers.len()
        &&& self.mempool.journal.len() == self.archive.headers.len()
        &&& forall|i: int| 0 <= i < self.utxos.journal.len() ==> #[trigger] self.journal_matches(i)
    }

    /// Why a sidechain block cannot be connected, if it cannot.
    pub open spec fn connect_error(
        self,
        header: Header,
        coinbase: Seq<Output>,
        transactions: Seq<TransactionView>,
    ) -> Option<Error> {
        if !self.archive.bmm_hashes.contains(header_hash(header)) {
            Some(Error::NotBmmCommitted)
        } else if header.prev_side_block_hash@ != self.archive.tip_hash() {
            Some(Error::WrongPrev)
        } else if !valid_block(self.utxos.utxos, coinbase, transactions) {
            Some(Error::InvalidBlock)
        } else if !within_output_limit(coinbase, transactions) {
            Some(Error::OutputLimit)
        } else if self.archive.headers.len() >= u32::MAX || !self.utxos.has_room(
            transactions.len(),
        ) {
            Some(Error::StoreFailure)
        } else if !self.mempool.connectable(transactions) {
            Some(Error::NotInMempool)
        } else {
            None
        }
    }

    /// Whether `after` is this state with one sidechain block connected.
    pub open spec fn connected(
        self,
        after: StateView,
        header: Header,
        coinbase: Seq<Output>,
        transactions: Seq<TransactionView>,
    ) -> bool {
        &&& after.archive == self.archive.connect(header, coinbase, transactions)
        &&& self.utxos.connected(
            after.utxos,
            self.archive.next_block_number() as u32,
            coinbase,
            transactions,
        )
        &&& after.mempool == self.mempool.connect(transactions)
    }

    /// The state with its newest sidechain block taken back out: out of
    /// the UTXO store and the archive, and its transactions and the
    /// selection that it cleared given back to the mempool.
    pub open spec fn disconnect_one(self) -> StateView {
        StateView {
            utxos: self.utxos.disconnect(),
            archive: self.archive.disconnect(1),
            mempool: self.mempool.disconnect(),
        }
    }

    /// The state with its newest `number` sidechain blocks taken back out.
    pub open spec fn disconnect(self, number: nat) -> StateView
        decreases number,
    {
        if number == 0 {
            self
        } else {
            self.disconnect_one().disconnect((number - 1) as nat)
        }
    }

    /// Why a parent block cannot be connected, if it cannot.
    pub open spec fn main_block_error(self, block: MainBlock) -> Option<Error> {
        if block.block_height != self.utxos.main_block_height + 1 {
            Some(Error::InvalidMainHeight)
        } else if is_failure(block.withdrawal_bundle_event) && !self.utxos.bundle_refundable() {
            Some(Error::StoreFailure)
        } else {
            None
        }
    }

    /// The state after a parent block: its deposits credited, its verdict
    /// on the bundle applied, its commitments recorded, and the cursors
    /// into the parent chain set to it.
    pub open spec fn connect_main_block(self, block: MainBlock) -> StateView {
        let deposited = UtxosView {
            utxos: with_deposits(self.utxos.utxos, block.deposits@),
            ..self.utxos
        };
        let settled = after_event(deposited, block.withdrawal_bundle_event);
        StateView {
            utxos: UtxosView {
                main_block_height: block.block_height,
                main_chain_tip: block.block_hash,
                ..settled
            },
            archive: ArchiveView {
                bmm_hashes: self.archive.bmm_hashes + hash_set(block.bmm_hashes@),
                ..self.archive
            },
            mempool: self.mempool,
        }
    }

    /// The state after the initial sync.
    pub open spec fn load_deposits(
        self,
        deposits: Seq<Deposit>,
        main_block_height: u32,
        main_chain_tip: [u8; HASH_LENGTH],
    ) -> StateView {
        StateView {
            utxos: UtxosView {
                utxos: with_deposits(self.utxos.utxos, deposits),
                main_block_height,
                main_chain_tip,
                ..self.utxos
            },
            ..self
        }
    }
}

/// Crediting deposits changes nothing at an outpoint that is no deposit.
pub proof fn lemma_deposits_elsewhere(
    utxos: Map<OutPoint, Output>,
    deposits: Seq<Deposit>,
    outpoint: OutPoint,
)
    requires
        !(outpoint is Deposit),
    ensures
        with_deposits(utxos, deposits).contains_key(outpoint) == utxos.contains_key(outpoint),
        with_deposits(utxos, deposits)[outpoint] == utxos[outpoint],
    decreases deposits.len(),
{
    if deposits.len() > 0 {
        lemma_deposits_elsewhere(utxos, deposits.drop_last(), outpoint);
    }
}

/// Connecting a sidechain block and then disconnecting one block gives the
/// state as it was: the UTXO store, the archive and the mempool, with the
/// block's transactions pending again and the selection standing again.
pub proof fn lemma_state_connect_then_disconnect(
    before: StateView,
    after: StateView,
    header: Header,
    coinbase: Seq<Output>,
    transactions: Seq<TransactionView>,
)
    requires
        before.consistent(),
        before.connected(after, header, coinbase, transactions),
    ensures
        after.disconnect(1) == before,
{
    lemma_connect_then_disconnect(
        before.utxos,
        after.utxos,
        before.archive.next_block_number() as u32,
        coinbase,
        transactions,
    );
    lemma_archive_connect_then_disconnect(before.archive, header, coinbase, transactions);
    crate::mempool::lemma_connect_then_disconnect(before.mempool, transactions);
    assert(after.disconnect(1) == after.disconnect_one().disconnect(0));
}

/// What holds of every state that the coordinator reaches: no outpoint is
/// both unlocked and locked; the archived transactions are as many as the
/// headers account for; and the side block height is the number of
/// archived blocks.
pub proof fn lemma_state_invariants(state: StateView)
    requires
        state.consistent(),
    ensures
        state.utxos.unlocked_withdrawals.disjoint(state.utxos.locked_withdrawals),
        state.archive.transactions.len() == state.archive.accounted(),
        state.utxos.side_block_height == state.archive.headers.len(),
{
}

/// What holds of every archived block of every state that the coordinator
/// reaches: its range of transactions starts where the range of the block
/// before it ends, or at 0 for the first block, and lies within the
/// archived transactions.
pub proof fn lemma_state_ranges(state: StateView, i: int)
    requires
        state.consistent(),
        0 <= i < state.archive.headers.len(),
    ensures
        state.archive.range_start(i) == (if i == 0 {
            0
        } else {
            state.archive.range_end(i - 1)
        }),
        state.archive.range_start(i) <= state.archive.range_end(i),
        state.archive.range_end(i) <= state.archive.transactions.len(),
{
    assert(state.archive.range_start(i) <= state.archive.range_end(i));
    lemma_range_ends_grow(state.archive, i, i);
}

/// Of every sidechain block that the state connects: the coinbase pays
/// out no more than the fees of the block's transactions, and each
/// transaction pays out no more than it takes in.
pub proof fn lemma_connected_block_conserves(
    state: StateView,
    header: Header,
    coinbase: Seq<Output>,
    transactions: Seq<TransactionView>,
)
    requires
        state.connect_error(header, coinbase, transactions) is None,
    ensures
        outputs_value(coinbase) <= total(block_fees(state.utxos.utxos, transactions)),
        forall|k: int|
            0 <= k < transactions.len() ==> (#[trigger] transactions[k]).value_out() <= value_in(
                state.utxos.utxos,
                transactions[k].inputs,
            ),
{
    lemma_valid_block_conserves(state.utxos.utxos, coinbase, transactions);
}

/// Of every sidechain block that the state connects: every outpoint that
/// one of its transactions spends is in the UTXO set.
pub proof fn lemma_connected_block_inputs_exist(
    state: StateView,
    header: Header,
    coinbase: Seq<Output>,
    transactions: Seq<TransactionView>,
    k: int,
)
    requires
        state.connect_error(header, coinbase, transactions) is None,
        0 <= k < transactions.len(),
    ensures
        inputs_exist(state.utxos.utxos, transactions[k].inputs),
{
    assert(payable(state.utxos.utxos, transactions[k]));
}

/// Of every sidechain block that the state connects: no two of its
/// transactions spend a common outpoint.
pub proof fn lemma_connected_block_inputs(
    state: StateView,
    header: Header,
    coinbase: Seq<Output>,
    transactions: Seq<TransactionView>,
    a: int,
    b: int,
)
    requires
        state.connect_error(header, coinbase, transactions) is None,
        0 <= a < transactions.len(),
        0 <= b < transactions.len(),
        a != b,
    ensures
        transactions[a].inputs.to_set().disjoint(transactions[b].inputs.to_set()),
{
    lemma_valid_block_inputs(state.utxos.utxos, coinbase, transactions, a, b);
}

/// A connected sidechain block leaves the stores consistent, and in
/// agreement with one another.
pub proof fn lemma_connect_keeps_consistent(
    before: StateView,
    after: StateView,
    header: Header,
    coinbase: Seq<Output>,
    transactions: Seq<TransactionView>,
)
    requires
        before.consistent(),
        before.connect_error(header, coinbase, transactions) is None,
        before.connected(after, header, coinbase, transactions),
    ensures
        after.consistent(),
{
    let first = before.utxos.transaction_number;
    let count = before.archive.headers.len() as int;
    lemma_created_withdrawals_numbers(first, transactions);
    assert forall|p: OutPoint| #[trigger]
        after.utxos.unlocked_withdrawals.contains(p) implies regular_below(
        p,
        after.utxos.transaction_number,
    ) && !after.utxos.locked_withdrawals.contains(p) by {
        if !before.utxos.unlocked_withdrawals.contains(p) {
            assert(created_withdrawals(first, transactions).contains(p));
        } else {
            assert(regular_below(p, first));
        }
    }
    assert forall|p: OutPoint| #[trigger]
        after.utxos.locked_withdrawals.contains(p) implies regular_below(
        p,
        after.utxos.transaction_number,
    ) by {
        assert(regular_below(p, first));
    }
    lemma_archive_connect_consistent(before.archive, header, coinbase, transactions);
    lemma_connect_consistent(before.mempool, transactions);
    assert forall|i: int| 0 <= i < after.utxos.journal.len() implies #[trigger] after.journal_matches(
        i,
    ) by {
        if i < count {
            assert(before.journal_matches(i));
            assert(after.utxos.journal[i] == after.utxos.journal.drop_last()[i]);
        }
    }
}

/// A connected parent block leaves the stores consistent, and in
/// agreement with one another.
pub proof fn lemma_main_block_keeps_consistent(before: StateView, block: MainBlock)
    requires
        before.consistent(),
    ensures
        before.connect_main_block(block).consistent(),
{
    let after = before.connect_main_block(block);
    lemma_consistent_whatever_committed(before.archive, after.archive);
    assert forall|i: int| 0 <= i < after.utxos.journal.len() implies #[trigger] after.journal_matches(
        i,
    ) by {
        assert(before.journal_matches(i));
    }
}

/// The initial sync leaves the stores consistent, and in agreement with
/// one another.
pub proof fn lemma_load_deposits_keeps_consistent(
    before: StateView,
    deposits: Seq<Deposit>,
    main_block_height: u32,
    main_chain_tip: [u8; HASH_LENGTH],
)
    requires
        before.consistent(),
    ensures
        before.load_deposits(deposits, main_block_height, main_chain_tip).consistent(),
{
    let after = before.load_deposits(deposits, main_block_height, main_chain_tip);
    assert forall|i: int| 0 <= i < after.utxos.journal.len() implies #[trigger] after.journal_matches(
        i,
    ) by {
        assert(before.journal_matches(i));
    }
}

/// A collected bundle leaves the stores consistent, and in agreement
/// with one another.
pub proof fn lemma_collected_keeps_consistent(before: StateView, after: StateView)
    requires
        before.consistent(),
        before.utxos.locked_withdrawals == Set::<OutPoint>::empty(),
        before.utxos.collected(after.utxos),
        after.archive == before.archive,
        after.mempool == before.mempool,
    ensures
        after.consistent(),
{
    vstd::set_lib::lemma_len_subset(
        after.utxos.locked_withdrawals,
        before.utxos.unlocked_withdrawals,
    );
    vstd::set_lib::lemma_len_subset(
        after.utxos.unlocked_withdrawals,
        before.utxos.unlocked_withdrawals,
    );
    assert forall|i: int| 0 <= i < after.utxos.journal.len() implies #[trigger] after.journal_matches(
        i,
    ) by {
        assert(before.journal_matches(i));
    }
}

/// Taking the newest sidechain block back out leaves the stores
/// consistent, and in agreement with one another.
pub proof fn lemma_disconnect_keeps_consistent(before: StateView)
    requires
        before.consistent(),
        before.archive.headers.len() > 0,
    ensures
        before.disconnect_one().consistent(),
{
    let after = before.disconnect_one();
    let last = before.archive.headers.len() - 1;
    assert(before.journal_matches(last));
    lemma_archive_disconnect_consistent(before.archive, 1);
    lemma_disconnect_consistent(before.mempool);
    let bound = before.utxos.journal.last().transaction_number;
    vstd::set_lib::lemma_len_subset(
        after.utxos.unlocked_withdrawals,
        before.utxos.unlocked_withdrawals,
    );
    vstd::set_lib::lemma_len_subset(
        after.utxos.locked_withdrawals,
        before.utxos.locked_withdrawals,
    );
    assert(before.archive.range_start(last) <= before.archive.range_end(last));
    lemma_range_ends_grow(before.archive, last, last);
    assert forall|i: int| 0 <= i < after.utxos.journal.len() implies #[trigger] after.journal_matches(
        i,
    ) by {
        assert(before.journal_matches(i));
    }
}

/// A state stays consistent where only its mempool changes, to a
/// consistent one.
pub proof fn lemma_consistent_with_mempool(before: StateView, after: StateView)
    requires
        before.consistent(),
        after.utxos == before.utxos,
        after.archive == before.archive,
        after.mempool.consistent(),
        after.mempool.journal.len() == before.mempool.journal.len(),
    ensures
        after.consistent(),
{
    assert forall|i: int| 0 <= i < after.utxos.journal.len() implies #[trigger] after.journal_matches(
        i,
    ) by {
        assert(before.journal_matches(i));
    }
}

impl State {
    pub closed spec fn wf(&self) -> bool {
        &&& self.utxos.wf()
        &&& self.archive.wf()
        &&& self.mempool.wf()
        &&& self@.consistent()
    }

    /// In a well-formed state the stores are consistent and agree.
    pub proof fn lemma_wf_consistent(&self)
        requires
            self.wf(),
        ensures
            self@.consistent(),
    {
    }

    /// A state with three empty stores.
    pub fn new() -> (r: State)
        ensures
            r.wf(),
            r@.utxos.utxos == Map::<OutPoint, Output>::empty(),
            r@.utxos.transaction_number == 0,
            r@.utxos.main_block_height == 0,
            r@.utxos.main_chain_tip == [0u8; HASH_LENGTH],
            r@.utxos.side_block_height == 0,
            r@.utxos.unlocked_withdrawals == Set::<OutPoint>::empty(),
            r@.utxos.locked_withdrawals == Set::<OutPoint>::empty(),
            r@.archive.headers == Seq::<(Header, (u64, u64))>::empty(),
            r@.archive.transactions == Seq::<TransactionView>::empty(),
            r@.archive.bmm_hashes == Set::<Seq<u8>>::empty(),
            r@.mempool.entries == Seq::<EntryView>::empty(),
            r@.mempool.pending_selected == Seq::<Seq<u8>>::empty(),
            r@.utxos.journal.len() == 0,
            r@.archive.coinbases.len() == 0,
            r@.mempool.journal.len() == 0,
    {
        State { utxos: Utxos::new(), archive: Archive::new(), mempool: Mempool::new() }
    }

    /// The UTXO store.
    pub fn utxos(&self) -> (r: &Utxos)
        requires
            self.wf(),
        ensures
            r.wf(),
            r@ == self@.utxos,
    {
        &self.utxos
    }

    /// The block archive.
    pub fn archive(&self) -> (r: &Archive)
        requires
            self.wf(),
        ensures
            r.wf(),
            r@ == self@.archive,
    {
        &self.archive
    }

    /// The mempool.
    pub fn mempool(&self) -> (r: &Mempool)
        requires
            self.wf(),
        ensures
            r.wf(),
            r@ == self@.mempool,
    {
        &self.mempool
    }

    /// Whether the UTXO set is empty, as it is before the initial sync.
    pub fn is_clean(&self) -> (r: bool)
        ensures
            r == (self@.utxos.utxos == Map::<OutPoint, Output>::empty()),
    {
        self.utxos.is_empty()
    }

    /// The newest sidechain block: its number, its header and its
    /// transactions range.
    pub fn get_chain_tip(&self) -> (r: Option<(u32, (Header, (u64, u64)))>)
        requires
            self.wf(),
        ensures
            r == (if self@.archive.headers.len() == 0 {
                None
            } else {
                Some((self@.archive.headers.len() as u32, self@.archive.headers.last()))
            }),
    {
        self.archive.get_chain_tip()
    }

    /// The whole UTXO set: each outpoint once, with its output.
    pub fn get_utxo_set(&self) -> (r: Vec<(OutPoint, Output)>)
        requires
            self.wf(),
        ensures
            entry_keys(r@).no_duplicates(),
            entries_map(r@) == self@.utxos.utxos,
    {
        self.utxos.get_utxo_set()
    }

    /// The pending withdrawal bundle: each locked withdrawal that is in
    /// the UTXO set, with its output.
    pub fn get_withdrawal_bundle(&self) -> (r: Vec<(OutPoint, Output)>)
        requires
            self.wf(),
        ensures
            entry_keys(r@).no_duplicates(),
            entries_map(r@) == self@.utxos.utxos.restrict(self@.utxos.locked_withdrawals),
    {
        self.utxos.get_pending_withdrawal_bundle()
    }

    pub fn get_main_chain_tip(&self) -> (r: [u8; HASH_LENGTH])
        ensures
            r == self@.utxos.main_chain_tip,
    {
        self.utxos.get_main_chain_tip()
    }

    pub fn get_main_block_height(&self) -> (r: u32)
        ensures
            r == self@.utxos.main_block_height,
    {
        self.utxos.get_main_block_height()
    }

    pub fn get_side_block_height(&self) -> (r: u32)
        ensures
            r == self@.utxos.side_block_height,
    {
        self.utxos.get_side_block_height()
    }

    /// Forms a withdrawal bundle from the unlocked withdrawals.
    pub fn collect_withdrawals(&mut self) -> (r: Result<(), Error>)
        requires
            old(self).wf(),
        ensures
            final(self).wf(),
            final(self)@.archive == old(self)@.archive,
            final(self)@.mempool == old(self)@.mempool,
            match r {
                Ok(()) => {
                    &&& old(self)@.utxos.locked_withdrawals == Set::<OutPoint>::empty()
                    &&& old(self)@.utxos.bundle_ready()
                    &&& old(self)@.utxos.collected(final(self)@.utxos)
                },
                Err(e) => {
                    &&& final(self)@ == old(self)@
                    &&& e == (if old(self)@.utxos.locked_withdrawals != Set::<OutPoint>::empty() {
                        Error::BundlePending
                    } else {
                        Error::StoreFailure
                    })
                    &&& old(self)@.utxos.locked_withdrawals != Set::<OutPoint>::empty()
                        || !old(self)@.utxos.bundle_ready()
                },
            },
    {
        let r = self.utxos.collect_withdrawals();
        proof {
            self.utxos.lemma_wf_consistent();
            assert forall|i: int| 0 <= i < self@.utxos.journal.len() implies #[trigger] self@.journal_matches(
                i,
            ) by {
                assert(old(self)@.journal_matches(i));
            }
        }
        r
    }
    /// Selects anew the transactions for the next block and returns them,
    /// the one with the highest priority first.
    pub fn collect_transactions(&mut self) -> (r: Vec<Transaction>)
        requires
            old(self).wf(),
        ensures
            final(self).wf(),
            final(self)@ == (StateView {
                mempool: MempoolView {
                    pending_selected: hashes_at(
                        old(self)@.mempool.entries,
                        selection(old(self)@.mempool.entries),
                    ),
                    ..old(self)@.mempool
                },
                ..old(self)@
            }),
            transaction_views(r@) == selected_transactions(old(self)@.mempool.entries),
    {
        self.mempool.collect_transactions();
        proof {
            self.mempool.lemma_wf_consistent();
            lemma_consistent_with_mempool(old(self)@, self@);
            let entries = self@.mempool.entries;
            let chosen = selection(entries);
            lemma_pack(entries, entries.len() as int);
            assert forall|k: int| 0 <= k < chosen.len() implies contains_hash(
                entries,
                #[trigger] self@.mempool.pending_selected[k],
            ) && index_of_hash(entries, self@.mempool.pending_selected[k]) == chosen[k] by {
                let hash = entries[chosen[k]].hash;
                assert(0 <= chosen[k] < entries.len());
                assert(self@.mempool.pending_selected[k] == hash);
                let at = index_of_hash(entries, hash);
                assert(0 <= at < entries.len() && entries[at].hash == hash);
            }
            assert(pending_transactions(entries, self@.mempool.pending_selected)
                =~= selected_transactions(entries));
        }
        match self.mempool.get_pending_transactions() {
            Ok(transactions) => transactions,
            Err(_) => {
                proof {
                    assert(false);
                }
                Vec::new()
            },
        }
    }

    /// Puts `transaction`, submitted at `timestamp`, into the mempool with
    /// the fee that it pays against the UTXO set.
    pub fn submit_transaction_at(&mut self, transaction: &Transaction, timestamp: u64) -> (r: Result<
        (),
        Error,
    >)
        requires
            old(self).wf(),
        ensures
            final(self).wf(),
            match r {
                Ok(()) => payable(old(self)@.utxos.utxos, transaction@) && final(self)@ == (StateView {
                    mempool: old(self)@.mempool.submit(
                        transaction@,
                        transaction_fee(old(self)@.utxos.utxos, transaction@) as u64,
                        timestamp,
                    ),
                    ..old(self)@
                }),
                Err(e) => e == Error::InvalidTransaction && !payable(
                    old(self)@.utxos.utxos,
                    transaction@,
                ) && final(self)@ == old(self)@,
            },
    {
        let fee = match self.utxos.get_transaction_fee(transaction) {
            Ok(fee) => fee,
            Err(e) => {
                return Err(e);
            },
        };
        self.mempool.submit_transaction_at(transaction, fee, timestamp);
        proof {
            self.mempool.lemma_wf_consistent();
            lemma_consistent_with_mempool(old(self)@, self@);
        }
        Ok(())
    }

    /// Puts `transaction`, submitted now, into the mempool with the fee
    /// that it pays against the UTXO set.
    pub fn submit_transaction(&mut self, transaction: &Transaction) -> (r: Result<(), Error>)
        requires
            old(self).wf(),
        ensures
            final(self).wf(),
            payable(old(self)@.utxos.utxos, transaction@) && contains_hash(
                old(self)@.mempool.entries,
                transaction_hash(transaction@),
            ) ==> r is Ok,
            match r {
                Ok(()) => payable(old(self)@.utxos.utxos, transaction@) && exists|timestamp: u64|
                    final(self)@ == (StateView {
                        mempool: #[trigger] old(self)@.mempool.submit(
                            transaction@,
                            transaction_fee(old(self)@.utxos.utxos, transaction@) as u64,
                            timestamp,
                        ),
                        ..old(self)@
                    }),
                Err(e) => final(self)@ == old(self)@ && (if payable(
                    old(self)@.utxos.utxos,
                    transaction@,
                ) {
                    e == Error::StoreFailure
                } else {
                    e == Error::InvalidTransaction
                }),
            },
    {
        let fee = match self.utxos.get_transaction_fee(transaction) {
            Ok(fee) => fee,
            Err(e) => {
                return Err(e);
            },
        };
        let r = self.mempool.submit_transaction(transaction, fee);
        proof {
            self.mempool.lemma_wf_consistent();
            lemma_consistent_with_mempool(old(self)@, self@);
            if r is Ok {
                assert(fee == transaction_fee(old(self)@.utxos.utxos, transaction@) as u64);
                let timestamp = choose|timestamp: u64|
                    self@.mempool == #[trigger] old(self)@.mempool.submit(
                        transaction@,
                        fee,
                        timestamp,
                    );
                assert(self@ == (StateView {
                    mempool: old(self)@.mempool.submit(transaction@, fee, timestamp),
                    ..old(self)@
                }));
            }
        }
        r
    }

    /// The initial sync: credits the deposits that the parent chain
    /// reports and sets the cursors into the parent chain.
    pub fn load_deposits(
        &mut self,
        deposits: &[Deposit],
        main_block_height: u32,
        main_chain_tip: &[u8; HASH_LENGTH],
    )
        requires
            old(self).wf(),
        ensures
            final(self).wf(),
            final(self)@ == old(self)@.load_deposits(deposits@, main_block_height, *main_chain_tip),
    {
        self.credit(deposits);
        self.utxos.set_main_block_height(main_block_height);
        self.utxos.set_main_chain_tip(main_chain_tip);
        proof {
            self.utxos.lemma_wf_consistent();
            assert forall|i: int| 0 <= i < self@.utxos.journal.len() implies #[trigger] self@.journal_matches(
                i,
            ) by {
                assert(old(self)@.journal_matches(i));
            }
        }
    }

    /// Credits each deposit to the UTXO set.
    fn credit(&mut self, deposits: &[Deposit])
        requires
            old(self).wf(),
        ensures
            final(self).wf(),
            final(self)@ == (StateView {
                utxos: UtxosView {
                    utxos: with_deposits(old(self)@.utxos.utxos, deposits@),
                    ..old(self)@.utxos
                },
                ..old(self)@
            }),
    {
        let mut i: usize = 0;
        proof {
            assert(deposits@.take(0) =~= Seq::<Deposit>::empty());
        }
        while i < deposits.len()
            invariant
                i <= deposits@.len(),
                self.utxos.wf(),
                self.archive == old(self).archive,
                self.mempool == old(self).mempool,
                self.utxos@ == (UtxosView {
                    utxos: with_deposits(old(self)@.utxos.utxos, deposits@.take(i as int)),
                    ..old(self)@.utxos
                }),
            decreases deposits.len() - i,
        {
            let outpoint = deposits[i].outpoint();
            let output = deposits[i].output();
            self.utxos.add_utxo(&outpoint, &output);
            proof {
                assert(deposits@.take(i + 1).drop_last() =~= deposits@.take(i as int));
            }
            i += 1;
        }
        proof {
            assert(deposits@.take(i as int) =~= deposits@);
            self.utxos.lemma_wf_consistent();
            assert forall|i: int| 0 <= i < self@.utxos.journal.len() implies #[trigger] self@.journal_matches(
                i,
            ) by {
                assert(old(self)@.journal_matches(i));
            }
        }
    }

    /// Whether a sidechain block can be connected, and if not, why not.
    pub fn validate(&self, header: &Header, coinbase: &[Output], transactions: &[Transaction]) -> (r:
        Result<(), Error>)
        requires
            self.wf(),
        ensures
            r == (match self@.connect_error(*header, coinbase@, transaction_views(transactions@)) {
                Some(e) => Err::<(), Error>(e),
                None => Ok(()),
            }),
    {
        proof {
            self.archive.lemma_wf_consistent();
        }
        match self.archive.validate_header(header) {
            Ok(()) => {},
            Err(e) => {
                return Err(e);
            },
        }
        let tip_number = match self.archive.get_chain_tip() {
            Some((block_number, _)) => block_number,
            None => 0,
        };
        if !self.utxos.validate(coinbase, transactions) {
            return Err(Error::InvalidBlock);
        }
        match self.utxos.check_connect(coinbase, transactions) {
            Ok(()) => {},
            Err(e) => {
                return Err(e);
            },
        }
        if tip_number == u32::MAX {
            return Err(Error::StoreFailure);
        }
        if !self.mempool.is_connectable(transactions) {
            return Err(Error::NotInMempool);
        }
        Ok(())
    }

    /// Connects a sidechain block: the archive takes it, the UTXO store
    /// applies it, and the mempool drops its transactions. Changes
    /// nothing where the block is refused.
    pub fn connect(&mut self, header: Header, coinbase: &[Output], transactions: &[Transaction]) -> (r:
        Result<(), Error>)
        requires
            old(self).wf(),
        ensures
            final(self).wf(),
            match r {
                Ok(()) => old(self)@.connect_error(
                    header,
                    coinbase@,
                    transaction_views(transactions@),
                ) is None && old(self)@.connected(
                    final(self)@,
                    header,
                    coinbase@,
                    transaction_views(transactions@),
                ),
                Err(e) => old(self)@.connect_error(
                    header,
                    coinbase@,
                    transaction_views(transactions@),
                ) == Some(e) && final(self)@ == old(self)@,
            },
    {
        match self.validate(&header, coinbase, transactions) {
            Ok(()) => {},
            Err(e) => {
                return Err(e);
            },
        }
        let tip_number = match self.archive.get_chain_tip() {
            Some((block_number, _)) => block_number,
            None => 0,
        };
        let block_height = tip_number + 1;
        proof {
            self.archive.lemma_wf_consistent();
            self.utxos.lemma_wf_consistent();
        }
        match self.archive.connect(header, coinbase, transactions) {
            Ok(()) => {},
            Err(_) => {
                proof {
                    assert(false);
                }
            },
        }
        match self.utxos.connect(block_height, coinbase, transactions) {
            Ok(()) => {},
            Err(_) => {
                proof {
                    assert(false);
                }
            },
        }
        match self.mempool.connect(transactions) {
            Ok(()) => {},
            Err(_) => {
                proof {
                    assert(false);
                }
            },
        }
        proof {
            self.archive.lemma_wf_consistent();
            self.utxos.lemma_wf_consistent();
            self.mempool.lemma_wf_consistent();
            let before = old(self)@;
            let after = self@;
            let count = before.archive.headers.len() as int;
            assert(after.utxos.journal.drop_last() == before.utxos.journal);
            assert forall|i: int| 0 <= i < after.utxos.journal.len() implies #[trigger] after.journal_matches(
                i,
            ) by {
                if i < count {
                    assert(before.journal_matches(i));
                    assert(after.utxos.journal[i] == after.utxos.journal.drop_last()[i]);
                }
            }
        }
        Ok(())
    }

    /// Takes the newest `number` sidechain blocks back out of the UTXO
    /// store and the archive, and gives their transactions back to the
    /// mempool. Changes nothing where fewer are archived.
    pub fn disconnect(&mut self, number: u32) -> (r: Result<(), Error>)
        requires
            old(self).wf(),
        ensures
            final(self).wf(),
            match r {
                Ok(()) => number <= old(self)@.archive.headers.len() && final(self)@
                    == old(self)@.disconnect(number as nat),
                Err(e) => e == Error::StoreFailure && number > old(self)@.archive.headers.len()
                    && final(self)@ == old(self)@,
            },
    {
        let archived = match self.archive.get_chain_tip() {
            Some((block_number, _)) => block_number,
            None => 0,
        };
        if number > archived {
            return Err(Error::StoreFailure);
        }
        let mut done: u32 = 0;
        while done < number
            invariant
                done <= number,
                self.wf(),
                number - done <= self@.archive.headers.len(),
                old(self)@.disconnect(number as nat) == self@.disconnect((number - done) as nat),
            decreases number - done,
        {
            self.disconnect_tip();
            done += 1;
        }
        Ok(())
    }

    /// Takes the newest sidechain block back out, and gives its
    /// transactions back to the mempool.
    fn disconnect_tip(&mut self)
        requires
            old(self).wf(),
            old(self)@.archive.headers.len() > 0,
        ensures
            final(self).wf(),
            final(self)@ == old(self)@.disconnect_one(),
            final(self)@.archive.headers.len() == old(self)@.archive.headers.len() - 1,
    {
        proof {
            self.archive.lemma_wf_consistent();
            self.utxos.lemma_wf_consistent();
            self.mempool.lemma_wf_consistent();
        }
        let ghost before = self@;
        let ghost last = before.archive.headers.len() - 1;
        let block_number = match self.archive.get_chain_tip() {
            Some((block_number, _)) => block_number,
            None => 0,
        };
        let coinbase = match self.archive.get_coinbase(block_number) {
            Some(coinbase) => coinbase,
            None => Vec::new(),
        };
        let transactions = match self.archive.get_transactions(block_number) {
            Some(transactions) => transactions,
            None => Vec::new(),
        };
        proof {
            assert(before.journal_matches(last));
            assert(before.archive.range_start(last) <= before.archive.range_end(last));
            lemma_range_ends_grow(before.archive, last, last);
            assert(transaction_views(transactions@).len() == transactions@.len());
        }
        match self.utxos.disconnect(block_number, coinbase.as_slice(), transactions.as_slice()) {
            Ok(()) => {},
            Err(_) => {
                proof {
                    assert(false);
                }
            },
        }
        match self.archive.disconnect(1) {
            Ok(()) => {},
            Err(_) => {
                proof {
                    assert(false);
                }
            },
        }
        match self.mempool.disconnect() {
            Ok(()) => {},
            Err(_) => {
                proof {
                    assert(false);
                }
            },
        }
        proof {
            self.archive.lemma_wf_consistent();
            self.utxos.lemma_wf_consistent();
            self.mempool.lemma_wf_consistent();
            let after = self@;
            assert forall|i: int| 0 <= i < after.utxos.journal.len() implies #[trigger] after.journal_matches(
                i,
            ) by {
                assert(before.journal_matches(i));
            }
        }
    }

    /// Connects a parent block: credits its deposits, applies its verdict
    /// on the locked bundle, records its commitments and moves the cursors
    /// into the parent chain. Changes nothing where the block is refused.
    pub fn connect_main_block(&mut self, block: &MainBlock) -> (r: Result<(), Error>)
        requires
            old(self).wf(),
        ensures
            final(self).wf(),
            match r {
                Ok(()) => old(self)@.main_block_error(*block) is None && final(self)@
                    == old(self)@.connect_main_block(*block),
                Err(e) => old(self)@.main_block_error(*block) == Some(e) && final(self)@
                    == old(self)@,
            },
    {
        let current = self.utxos.get_main_block_height();
        if current == u32::MAX || block.block_height != current + 1 {
            return Err(Error::InvalidMainHeight);
        }
        let failed = match &block.withdrawal_bundle_event {
            Some(event) => match event.withdrawal_bundle_event_type {
                WithdrawalBundleEventType::Failed => true,
                _ => false,
            },
            None => false,
        };
        if failed && !self.utxos.bundle_is_refundable() {
            return Err(Error::StoreFailure);
        }
        proof {
            self.utxos.lemma_wf_consistent();
            self.archive.lemma_wf_consistent();
        }
        self.credit(block.deposits.as_slice());
        proof {
            if failed {
                assert forall|p: OutPoint| #[trigger]
                    self@.utxos.locked_withdrawals.contains(p) implies refundable(
                    self@.utxos.utxos,
                    p,
                ) by {
                    assert(regular_below(p, old(self)@.utxos.transaction_number));
                    lemma_deposits_elsewhere(old(self)@.utxos.utxos, block.deposits@, p);
                    assert(refundable(old(self)@.utxos.utxos, p));
                }
            }
        }
        match &block.withdrawal_bundle_event {
            Some(event) => match event.withdrawal_bundle_event_type {
                WithdrawalBundleEventType::Submitted => {
                    self.utxos.submit_bundle(&event.m6id);
                },
                WithdrawalBundleEventType::Succeeded => {
                    self.utxos.succeed_bundle(&event.m6id);
                },
                WithdrawalBundleEventType::Failed => {
                    match self.utxos.fail_bundle(&event.m6id) {
                        Ok(()) => {},
                        Err(_) => {
                            proof {
                                assert(false);
                            }
                        },
                    }
                },
            },
            None => {},
        }
        let ghost archive_before = self@.archive;
        self.archive.add_bmm_hashes(block.bmm_hashes.as_slice());
        self.utxos.set_main_block_height(block.block_height);
        self.utxos.set_main_chain_tip(&block.block_hash);
        proof {
            self.utxos.lemma_wf_consistent();
            self.archive.lemma_wf_consistent();
            let after = self@;
            assert forall|i: int| 0 <= i < after.utxos.journal.len() implies #[trigger] after.journal_matches(
                i,
            ) by {
                assert(old(self)@.journal_matches(i));
            }
        }
        Ok(())
    }
}

} // verus!
