//! The UTXO store: the set of unspent outputs, the cursors into the parent
//! and side chains, and the withdrawal lifecycle sets.

use vstd::prelude::*;
use crate::bundle_order::{
    collected_before, lemma_collected_before_asymmetric, lemma_collected_before_total,
    lemma_collected_before_transitive, precedes,
};
use crate::amounts::{
    checked_outputs_value, lemma_total_take_le, lemma_total_take_succ, outputs_value, total,
};
use crate::tables::{below, entries_map, entry_keys, regular_below, OutPointSet, OutputTable};
use crate::types::{
    Error, OutPoint, Output, Transaction, TransactionView, transaction_views, ADDRESS_LENGTH,
    HASH_LENGTH, MAX_COINBASE_OUTPUTS, MAX_OUTPUTS_PER_TX, MAX_WITHDRAWAL_BUNDLE_OUTPUTS,
};

verus! {

/// What is needed to take one connected block back out of the store.
pub struct UndoRecord {
    block_height: u32,
    coinbase_outputs: usize,
    /// For each change to the UTXO set, in the order made: the outpoint
    /// and what it held before.
    prior_outputs: Vec<(OutPoint, Option<Output>)>,
    transaction_number: u64,
    side_block_height: u32,
}

pub struct UndoRecordView {
    pub block_height: u32,
    pub coinbase_outputs: usize,
    pub prior_outputs: Seq<(OutPoint, Option<Output>)>,
    /// The transaction counter before the block.
    pub transaction_number: u64,
    /// The number of connected blocks before the block.
    pub side_block_height: u32,
}

impl View for UndoRecord {
    type V = UndoRecordView;

    closed spec fn view(&self) -> UndoRecordView {
        UndoRecordView {
            block_height: self.block_height,
            coinbase_outputs: self.coinbase_outputs,
            prior_outputs: self.prior_outputs@,
            transaction_number: self.transaction_number,
            side_block_height: self.side_block_height,
        }
    }
}

pub struct Utxos {
    utxos: OutputTable,
    transaction_number: u64,
    main_block_height: u32,
    main_chain_tip: [u8; HASH_LENGTH],
    side_block_height: u32,
    unlocked_withdrawals: OutPointSet,
    locked_withdrawals: OutPointSet,
    journal: Vec<UndoRecord>,
}

/// The tables of the UTXO store.
pub struct UtxosView {
    pub utxos: Map<OutPoint, Output>,
    /// The next unused transaction number.
    pub transaction_number: u64,
    pub main_block_height: u32,
    pub main_chain_tip: [u8; HASH_LENGTH],
    /// The number of connected sidechain blocks; genesis is block 0.
    pub side_block_height: u32,
    pub unlocked_withdrawals: Set<OutPoint>,
    pub locked_withdrawals: Set<OutPoint>,
    /// One record per connected block, oldest first.
    pub journal: Seq<UndoRecordView>,
}

impl View for Utxos {
    type V = UtxosView;

    closed spec fn view(&self) -> UtxosView {
        UtxosView {
            utxos: self.utxos@,
            transaction_number: self.transaction_number,
            main_block_height: self.main_block_height,
            main_chain_tip: self.main_chain_tip,
            side_block_height: self.side_block_height,
            unlocked_withdrawals: self.unlocked_withdrawals@,
            locked_withdrawals: self.locked_withdrawals@,
            journal: self.journal@.map_values(|r: UndoRecord| r@),
        }
    }
}

/// The outpoint of output `i` beside `origin`: of the same transaction, or
/// of the same coinbase.
pub open spec fn sibling(origin: OutPoint, i: int) -> OutPoint {
    match origin {
        OutPoint::Regular { transaction_number, .. } => OutPoint::Regular {
            transaction_number,
            output_number: i as u8,
        },
        OutPoint::Coinbase { block_number, .. } => OutPoint::Coinbase {
            block_number,
            output_number: i as u8,
        },
        OutPoint::Deposit { .. } => origin,
    }
}

pub open spec fn coinbase_origin(block_height: u32) -> OutPoint {
    OutPoint::Coinbase { block_number: block_height, output_number: 0 }
}

pub open spec fn regular_origin(transaction_number: u64) -> OutPoint {
    OutPoint::Regular { transaction_number, output_number: 0 }
}

/// The UTXO set after `outputs` were put, in order, at the outpoints beside `origin`.
pub open spec fn emit(utxos: Map<OutPoint, Output>, origin: OutPoint, outputs: Seq<Output>) -> Map<
    OutPoint,
    Output,
>
    decreases outputs.len(),
{
    if outputs.len() == 0 {
        utxos
    } else {
        emit(utxos, origin, outputs.drop_last()).insert(
            sibling(origin, outputs.len() - 1),
            outputs.last(),
        )
    }
}

/// The UTXO set after one transaction: its inputs deleted, then its
/// outputs put under the transaction's number.
pub open spec fn apply_transaction(
    utxos: Map<OutPoint, Output>,
    number: u64,
    transaction: TransactionView,
) -> Map<OutPoint, Output> {
    emit(
        utxos.remove_keys(transaction.inputs.to_set()),
        regular_origin(number),
        transaction.outputs,
    )
}

/// The UTXO set after the transactions of a block, numbered from `first`.
pub open spec fn apply_transactions(
    utxos: Map<OutPoint, Output>,
    first: u64,
    transactions: Seq<TransactionView>,
) -> Map<OutPoint, Output>
    decreases transactions.len(),
{
    if transactions.len() == 0 {
        utxos
    } else {
        apply_transaction(
            apply_transactions(utxos, first, transactions.drop_last()),
            (first + transactions.len() - 1) as u64,
            transactions.last(),
        )
    }
}

/// The UTXO set after a block: the coinbase outputs put under the block's
/// height, then each transaction applied in order.
pub open spec fn connect_utxos(
    utxos: Map<OutPoint, Output>,
    block_height: u32,
    coinbase: Seq<Output>,
    first: u64,
    transactions: Seq<TransactionView>,
) -> Map<OutPoint, Output> {
    apply_transactions(emit(utxos, coinbase_origin(block_height), coinbase), first, transactions)
}

/// The outpoints of the withdrawals among the outputs of transaction `number`.
pub open spec fn created_in(number: u64, outputs: Seq<Output>) -> Set<OutPoint> {
    Set::new(
        |p: OutPoint|
            exists|i: int|
                0 <= i < outputs.len() && #[trigger] outputs[i].is_withdrawal() && p == sibling(
                    regular_origin(number),
                    i,
                ),
    )
}

/// The outpoints of the withdrawals that the transactions of a block create.
pub open spec fn created_withdrawals(first: u64, transactions: Seq<TransactionView>) -> Set<
    OutPoint,
>
    decreases transactions.len(),
{
    if transactions.len() == 0 {
        Set::<OutPoint>::empty()
    } else {
        created_withdrawals(first, transactions.drop_last()) + created_in(
            (first + transactions.len() - 1) as u64,
            transactions.last().outputs,
        )
    }
}

/// The UTXO set with `entry.0` holding again what `entry.1` says it held.
pub open spec fn restore(utxos: Map<OutPoint, Output>, entry: (OutPoint, Option<Output>)) -> Map<
    OutPoint,
    Output,
> {
    match entry.1 {
        Some(output) => utxos.insert(entry.0, output),
        None => utxos.remove(entry.0),
    }
}

/// The UTXO set with the changes that `log` records taken back, last first.
pub open spec fn rollback(utxos: Map<OutPoint, Output>, log: Seq<(OutPoint, Option<Output>)>) -> Map<
    OutPoint,
    Output,
>
    decreases log.len(),
{
    if log.len() == 0 {
        utxos
    } else {
        rollback(restore(utxos, log.last()), log.drop_last())
    }
}

/// Whether no list of outputs in the block is longer than 256.
pub open spec fn within_output_limit(coinbase: Seq<Output>, transactions: Seq<TransactionView>) -> bool {
    &&& coinbase.len() <= MAX_COINBASE_OUTPUTS
    &&& forall|k: int|
        0 <= k < transactions.len() ==> (#[trigger] transactions[k]).outputs.len()
            <= MAX_OUTPUTS_PER_TX
}

/// Whether `outpoint` holds a withdrawal.
pub open spec fn resolves_to_withdrawal(utxos: Map<OutPoint, Output>, outpoint: OutPoint) -> bool {
    utxos.contains_key(outpoint) && utxos[outpoint].is_withdrawal()
}

/// The fee of the withdrawal at `outpoint`.
pub open spec fn withdrawal_fee(utxos: Map<OutPoint, Output>, outpoint: OutPoint) -> u64 {
    match utxos[outpoint] {
        Output::Withdrawal { fee, .. } => fee,
        _ => 0,
    }
}

/// Whether the withdrawal at `p` enters a bundle before the one at `q`.
pub open spec fn enters_before(utxos: Map<OutPoint, Output>, p: OutPoint, q: OutPoint) -> bool {
    collected_before(withdrawal_fee(utxos, p), p, withdrawal_fee(utxos, q), q)
}

/// Whether the withdrawal at `outpoint` can be refunded: it is there, and
/// its value and fee together fit in 64 bits.
pub open spec fn refundable(utxos: Map<OutPoint, Output>, outpoint: OutPoint) -> bool {
    resolves_to_withdrawal(utxos, outpoint) && utxos[outpoint].spec_total_value() <= u64::MAX
}

/// What a failed withdrawal is replaced with: its whole value, back at its
/// sidechain address.
pub open spec fn refund(output: Output) -> Output {
    Output::Regular { address: output.spec_address(), value: output.spec_total_value() as u64 }
}

/// The UTXO set with each withdrawal at an outpoint of `locked` refunded.
pub open spec fn refunded(utxos: Map<OutPoint, Output>, locked: Set<OutPoint>) -> Map<
    OutPoint,
    Output,
> {
    Map::new(
        |p: OutPoint| utxos.contains_key(p),
        |p: OutPoint|
            if locked.contains(p) {
                refund(utxos[p])
            } else {
                utxos[p]
            },
    )
}

impl UtxosView {
    /// The withdrawal sets are finite and disjoint, and hold only outputs
    /// of transactions that were already numbered.
    pub open spec fn consistent(self) -> bool {
        &&& self.unlocked_withdrawals.finite()
        &&& self.locked_withdrawals.finite()
        &&& self.unlocked_withdrawals.disjoint(self.locked_withdrawals)
        &&& forall|p: OutPoint| #[trigger]
            self.unlocked_withdrawals.contains(p) ==> regular_below(p, self.transaction_number)
        &&& forall|p: OutPoint| #[trigger]
            self.locked_withdrawals.contains(p) ==> regular_below(p, self.transaction_number)
    }

    /// Whether the counters can take one more block of `transactions` transactions.
    pub open spec fn has_room(self, transactions: nat) -> bool {
        &&& self.transaction_number + transactions <= u64::MAX
        &&& self.side_block_height < u32::MAX
    }

    /// Whether `after` is this store with one block connected.
    pub open spec fn connected(
        self,
        after: UtxosView,
        block_height: u32,
        coinbase: Seq<Output>,
        transactions: Seq<TransactionView>,
    ) -> bool {
        &&& after.utxos == connect_utxos(
            self.utxos,
            block_height,
            coinbase,
            self.transaction_number,
            transactions,
        )
        &&& after.transaction_number == self.transaction_number + transactions.len()
        &&& after.side_block_height == self.side_block_height + 1
        &&& after.unlocked_withdrawals == self.unlocked_withdrawals + created_withdrawals(
            self.transaction_number,
            transactions,
        )
        &&& after.locked_withdrawals == self.locked_withdrawals
        &&& after.main_block_height == self.main_block_height
        &&& after.main_chain_tip == self.main_chain_tip
        &&& after.journal.len() == self.journal.len() + 1
        &&& after.journal.drop_last() == self.journal
        &&& after.journal.last().block_height == block_height
        &&& after.journal.last().coinbase_outputs == coinbase.len()
        &&& after.journal.last().transaction_number == self.transaction_number
        &&& after.journal.last().side_block_height == self.side_block_height
        &&& rollback(after.utxos, after.journal.last().prior_outputs) == self.utxos
    }

    /// Whether the newest connected block is the one described.
    pub open spec fn can_disconnect(self, block_height: u32, coinbase: nat, transactions: nat) -> bool {
        &&& self.journal.len() > 0
        &&& self.journal.last().block_height == block_height
        &&& self.journal.last().coinbase_outputs == coinbase
        &&& self.journal.last().transaction_number + transactions == self.transaction_number
    }

    /// The store with its newest connected block taken back out.
    pub open spec fn disconnect(self) -> UtxosView {
        let record = self.journal.last();
        UtxosView {
            utxos: rollback(self.utxos, record.prior_outputs),
            transaction_number: record.transaction_number,
            side_block_height: record.side_block_height,
            unlocked_withdrawals: below(self.unlocked_withdrawals, record.transaction_number),
            locked_withdrawals: below(self.locked_withdrawals, record.transaction_number),
            journal: self.journal.drop_last(),
            ..self
        }
    }

    /// Whether every unlocked withdrawal is in the UTXO set, as a withdrawal.
    pub open spec fn bundle_ready(self) -> bool {
        forall|p: OutPoint| #[trigger]
            self.unlocked_withdrawals.contains(p) ==> resolves_to_withdrawal(self.utxos, p)
    }

    /// Whether `after` is this store with a bundle collected: up to 6000 of
    /// the unlocked withdrawals are locked, and each of them enters a
    /// bundle before every withdrawal that is left unlocked.
    pub open spec fn collected(self, after: UtxosView) -> bool {
        &&& after == (UtxosView {
            unlocked_withdrawals: after.unlocked_withdrawals,
            locked_withdrawals: after.locked_withdrawals,
            ..self
        })
        &&& after.locked_withdrawals.subset_of(self.unlocked_withdrawals)
        &&& after.unlocked_withdrawals == self.unlocked_withdrawals.difference(
            after.locked_withdrawals,
        )
        &&& after.locked_withdrawals.len() == (if self.unlocked_withdrawals.len()
            <= MAX_WITHDRAWAL_BUNDLE_OUTPUTS {
            self.unlocked_withdrawals.len()
        } else {
            MAX_WITHDRAWAL_BUNDLE_OUTPUTS as nat
        })
        &&& forall|p: OutPoint, q: OutPoint|
            after.locked_withdrawals.contains(p) && after.unlocked_withdrawals.contains(q)
                ==> #[trigger] enters_before(self.utxos, p, q)
    }

    /// Whether every locked withdrawal can be refunded.
    pub open spec fn bundle_refundable(self) -> bool {
        forall|p: OutPoint| #[trigger]
            self.locked_withdrawals.contains(p) ==> refundable(self.utxos, p)
    }
}

/// Taking back a recorded insertion gives the set before it.
pub proof fn lemma_rollback_insert(
    utxos: Map<OutPoint, Output>,
    log: Seq<(OutPoint, Option<Output>)>,
    key: OutPoint,
    value: Output,
)
    ensures
        rollback(
            utxos.insert(key, value),
            log.push((key, if utxos.contains_key(key) { Some(utxos[key]) } else { None })),
        ) == rollback(utxos, log),
{
    let prior = if utxos.contains_key(key) { Some(utxos[key]) } else { None };
    let entry = (key, prior);
    assert(log.push(entry).drop_last() =~= log);
    assert(restore(utxos.insert(key, value), entry) =~= utxos);
}

/// Taking back a recorded deletion gives the set before it.
pub proof fn lemma_rollback_remove(
    utxos: Map<OutPoint, Output>,
    log: Seq<(OutPoint, Option<Output>)>,
    key: OutPoint,
)
    ensures
        rollback(
            utxos.remove(key),
            log.push((key, if utxos.contains_key(key) { Some(utxos[key]) } else { None })),
        ) == rollback(utxos, log),
{
    let prior = if utxos.contains_key(key) { Some(utxos[key]) } else { None };
    let entry = (key, prior);
    assert(log.push(entry).drop_last() =~= log);
    assert(restore(utxos.remove(key), entry) =~= utxos);
}

/// Puts `value` at `key` and records what was there.
fn record_insert(
    table: &mut OutputTable,
    log: &mut Vec<(OutPoint, Option<Output>)>,
    key: OutPoint,
    value: Output,
)
    requires
        old(table).wf(),
    ensures
        final(table).wf(),
        final(table)@ == old(table)@.insert(key, value),
        rollback(final(table)@, final(log)@) == rollback(old(table)@, old(log)@),
{
    let prior = table.get(&key);
    proof {
        lemma_rollback_insert(table@, log@, key, value);
    }
    log.push((key, prior));
    table.insert(key, value);
}

/// Deletes what is at `key` and records what was there.
fn record_remove(table: &mut OutputTable, log: &mut Vec<(OutPoint, Option<Output>)>, key: OutPoint)
    requires
        old(table).wf(),
    ensures
        final(table).wf(),
        final(table)@ == old(table)@.remove(key),
        rollback(final(table)@, final(log)@) == rollback(old(table)@, old(log)@),
{
    let prior = table.get(&key);
    proof {
        lemma_rollback_remove(table@, log@, key);
    }
    log.push((key, prior));
    table.remove(&key);
}

/// The outpoint of output `i` beside `origin`.
fn sibling_outpoint(origin: &OutPoint, i: u8) -> (r: OutPoint)
    ensures
        r == sibling(*origin, i as int),
{
    match origin {
        OutPoint::Regular { transaction_number, .. } => OutPoint::Regular {
            transaction_number: *transaction_number,
            output_number: i,
        },
        OutPoint::Coinbase { block_number, .. } => OutPoint::Coinbase {
            block_number: *block_number,
            output_number: i,
        },
        OutPoint::Deposit { .. } => *origin,
    }
}

/// Puts `outputs` at the outpoints beside `origin`, recording each change.
fn emit_outputs(
    table: &mut OutputTable,
    log: &mut Vec<(OutPoint, Option<Output>)>,
    origin: OutPoint,
    outputs: &[Output],
)
    requires
        old(table).wf(),
        outputs@.len() <= 256,
    ensures
        final(table).wf(),
        final(table)@ == emit(old(table)@, origin, outputs@),
        rollback(final(table)@, final(log)@) == rollback(old(table)@, old(log)@),
{
    let mut i: usize = 0;
    proof {
        assert(outputs@.take(0) =~= Seq::<Output>::empty());
    }
    while i < outputs.len()
        invariant
            i <= outputs.len(),
            outputs@.len() <= 256,
            table.wf(),
            table@ == emit(old(table)@, origin, outputs@.take(i as int)),
            rollback(table@, log@) == rollback(old(table)@, old(log)@),
        decreases outputs.len() - i,
    {
        let outpoint = sibling_outpoint(&origin, i as u8);
        record_insert(table, log, outpoint, outputs[i]);
        proof {
            assert(outputs@.take(i + 1).drop_last() =~= outputs@.take(i as int));
        }
        i += 1;
    }
    proof {
        assert(outputs@.take(i as int) =~= outputs@);
    }
}

/// Deletes what `inputs` spend, recording each change.
fn spend_inputs(
    table: &mut OutputTable,
    log: &mut Vec<(OutPoint, Option<Output>)>,
    inputs: &[OutPoint],
)
    requires
        old(table).wf(),
    ensures
        final(table).wf(),
        final(table)@ == old(table)@.remove_keys(inputs@.to_set()),
        rollback(final(table)@, final(log)@) == rollback(old(table)@, old(log)@),
{
    let mut i: usize = 0;
    proof {
        assert(inputs@.take(0).to_set() =~= Set::<OutPoint>::empty());
        assert(table@ =~= old(table)@.remove_keys(inputs@.take(0).to_set()));
    }
    while i < inputs.len()
        invariant
            i <= inputs.len(),
            table.wf(),
            table@ == old(table)@.remove_keys(inputs@.take(i as int).to_set()),
            rollback(table@, log@) == rollback(old(table)@, old(log)@),
        decreases inputs.len() - i,
    {
        record_remove(table, log, inputs[i]);
        proof {
            let a = inputs@.take(i as int);
            let b = inputs@.take(i + 1);
            assert(b =~= a.push(inputs@[i as int]));
            assert forall|p: OutPoint| b.contains(p) <==> (a.contains(p) || p == inputs@[i as int]) by {
                if b.contains(p) {
                    let j = choose|j: int| 0 <= j < b.len() && b[j] == p;
                    if j < a.len() {
                        assert(a[j] == p);
                    }
                }
                if a.contains(p) {
                    let j = choose|j: int| 0 <= j < a.len() && a[j] == p;
                    assert(b[j] == p);
                }
                if p == inputs@[i as int] {
                    assert(b[i as int] == p);
                }
            }
            assert(b.to_set() =~= a.to_set().insert(inputs@[i as int]));
            assert(table@ =~= old(table)@.remove_keys(b.to_set()));
        }
        i += 1;
    }
    proof {
        assert(inputs@.take(i as int) =~= inputs@);
    }
}

/// Adds to `set` the outpoints of the withdrawals among the outputs of
/// transaction `number`.
fn note_withdrawals(set: &mut OutPointSet, number: u64, outputs: &[Output])
    requires
        old(set).wf(),
        outputs@.len() <= 256,
    ensures
        final(set).wf(),
        final(set)@ == old(set)@ + created_in(number, outputs@),
{
    let origin = OutPoint::Regular { transaction_number: number, output_number: 0 };
    let mut i: usize = 0;
    proof {
        assert(set@ =~= old(set)@ + created_in(number, outputs@.take(0)));
    }
    while i < outputs.len()
        invariant
            i <= outputs.len(),
            outputs@.len() <= 256,
            origin == regular_origin(number),
            set.wf(),
            set@ == old(set)@ + created_in(number, outputs@.take(i as int)),
        decreases outputs.len() - i,
    {
        let ghost before = set@;
        let is_withdrawal = match outputs[i] {
            Output::Withdrawal { .. } => true,
            _ => false,
        };
        if is_withdrawal {
            set.insert(sibling_outpoint(&origin, i as u8));
        }
        proof {
            let a = outputs@.take(i as int);
            let b = outputs@.take(i + 1);
            assert forall|p: OutPoint|
                created_in(number, b).contains(p) <==> (created_in(number, a).contains(p) || (
                is_withdrawal && p == sibling(origin, i as int))) by {
                if created_in(number, b).contains(p) {
                    let j = choose|j: int|
                        0 <= j < b.len() && #[trigger] b[j].is_withdrawal() && p == sibling(
                            origin,
                            j,
                        );
                    if j < i {
                        assert(a[j].is_withdrawal());
                    }
                }
                if created_in(number, a).contains(p) {
                    let j = choose|j: int|
                        0 <= j < a.len() && #[trigger] a[j].is_withdrawal() && p == sibling(
                            origin,
                            j,
                        );
                    assert(b[j].is_withdrawal());
                }
                if is_withdrawal && p == sibling(origin, i as int) {
                    assert(b[i as int].is_withdrawal());
                }
            }
            assert(set@ =~= old(set)@ + created_in(number, b));
        }
        i += 1;
    }
    proof {
        assert(outputs@.take(i as int) =~= outputs@);
    }
}

/// The value that each input brings, in order; nothing for a missing one.
pub open spec fn input_values(utxos: Map<OutPoint, Output>, inputs: Seq<OutPoint>) -> Seq<nat> {
    inputs.map_values(
        |p: OutPoint|
            if utxos.contains_key(p) {
                utxos[p].spec_total_value()
            } else {
                0nat
            },
    )
}

/// The sum of the total values of the outputs that `inputs` spend.
pub open spec fn value_in(utxos: Map<OutPoint, Output>, inputs: Seq<OutPoint>) -> nat {
    total(input_values(utxos, inputs))
}

pub open spec fn inputs_exist(utxos: Map<OutPoint, Output>, inputs: Seq<OutPoint>) -> bool {
    forall|i: int| 0 <= i < inputs.len() ==> utxos.contains_key(#[trigger] inputs[i])
}

/// Every input exists, the inputs are worth no more than 64 bits hold, and
/// the outputs are worth no more than the inputs.
pub open spec fn payable(utxos: Map<OutPoint, Output>, transaction: TransactionView) -> bool {
    &&& inputs_exist(utxos, transaction.inputs)
    &&& value_in(utxos, transaction.inputs) <= u64::MAX
    &&& transaction.value_out() <= value_in(utxos, transaction.inputs)
}

/// What the inputs are worth beyond the outputs.
pub open spec fn transaction_fee(utxos: Map<OutPoint, Output>, transaction: TransactionView) -> nat {
    (value_in(utxos, transaction.inputs) - transaction.value_out()) as nat
}

/// The fee of each transaction, in order.
pub open spec fn block_fees(utxos: Map<OutPoint, Output>, transactions: Seq<TransactionView>) -> Seq<
    nat,
> {
    transactions.map_values(|t: TransactionView| transaction_fee(utxos, t))
}

/// Input `b` of transaction `a`.
pub open spec fn input_at(transactions: Seq<TransactionView>, a: int, b: int) -> OutPoint {
    transactions[a].inputs[b]
}

pub open spec fn input_slot(transactions: Seq<TransactionView>, a: int, b: int) -> bool {
    0 <= a < transactions.len() && 0 <= b < transactions[a].inputs.len()
}

/// No outpoint is spent by two inputs of the block, be they of one
/// transaction or of two.
pub open spec fn no_double_spend(transactions: Seq<TransactionView>) -> bool {
    forall|a: int, b: int, c: int, d: int|
        input_slot(transactions, a, b) && input_slot(transactions, c, d) && (a != c || b != d)
            ==> #[trigger] input_at(transactions, a, b) != #[trigger] input_at(transactions, c, d)
}

/// What a block must meet against the UTXO set it is connected to.
pub open spec fn valid_block(
    utxos: Map<OutPoint, Output>,
    coinbase: Seq<Output>,
    transactions: Seq<TransactionView>,
) -> bool {
    &&& no_double_spend(transactions)
    &&& forall|k: int| 0 <= k < transactions.len() ==> payable(utxos, #[trigger] transactions[k])
    &&& total(block_fees(utxos, transactions)) <= u64::MAX
    &&& outputs_value(coinbase) <= total(block_fees(utxos, transactions))
}

/// The address that owns each of `inputs`, in order.
pub open spec fn owners(utxos: Map<OutPoint, Output>, inputs: Seq<OutPoint>) -> Seq<
    [u8; ADDRESS_LENGTH],
> {
    inputs.map_values(|p: OutPoint| utxos[p].spec_address())
}

/// The owners of the inputs of each transaction, one list after the other.
pub open spec fn input_addresses(
    utxos: Map<OutPoint, Output>,
    transactions: Seq<TransactionView>,
) -> Seq<[u8; ADDRESS_LENGTH]>
    decreases transactions.len(),
{
    if transactions.len() == 0 {
        Seq::<[u8; ADDRESS_LENGTH]>::empty()
    } else {
        input_addresses(utxos, transactions.drop_last()) + owners(
            utxos,
            transactions.last().inputs,
        )
    }
}

spec fn slot_before(a: int, b: int, k: int, i: int) -> bool {
    a < k || (a == k && b < i)
}

/// Whether no outpoint is spent twice by `transactions`.
pub fn check_no_double_spend(transactions: &[Transaction]) -> (r: bool)
    ensures
        r == no_double_spend(transaction_views(transactions@)),
{
    let ghost views = transaction_views(transactions@);
    let mut spent = OutPointSet::new();
    let mut k: usize = 0;
    while k < transactions.len()
        invariant
            k <= transactions.len(),
            views == transaction_views(transactions@),
            spent.wf(),
            forall|a: int, b: int|
                input_slot(views, a, b) && slot_before(a, b, k as int, 0) ==> spent@.contains(
                    #[trigger] input_at(views, a, b),
                ),
            forall|p: OutPoint| #[trigger]
                spent@.contains(p) ==> exists|a: int, b: int|
                    input_slot(views, a, b) && slot_before(a, b, k as int, 0) && #[trigger] input_at(
                        views,
                        a,
                        b,
                    ) == p,
            forall|a: int, b: int, c: int, d: int|
                input_slot(views, a, b) && input_slot(views, c, d) && slot_before(a, b, k as int, 0)
                    && slot_before(c, d, k as int, 0) && (a != c || b != d) ==> #[trigger] input_at(
                    views,
                    a,
                    b,
                ) != #[trigger] input_at(views, c, d),
        decreases transactions.len() - k,
    {
        let transaction = &transactions[k];
        let mut i: usize = 0;
        while i < transaction.inputs.len()
            invariant
                k < transactions.len(),
                i <= transaction.inputs.len(),
                views == transaction_views(transactions@),
                transaction@ == views[k as int],
                spent.wf(),
                forall|a: int, b: int|
                    input_slot(views, a, b) && slot_before(a, b, k as int, i as int)
                        ==> spent@.contains(#[trigger] input_at(views, a, b)),
                forall|p: OutPoint| #[trigger]
                    spent@.contains(p) ==> exists|a: int, b: int|
                        input_slot(views, a, b) && slot_before(a, b, k as int, i as int)
                            && #[trigger] input_at(views, a, b) == p,
                forall|a: int, b: int, c: int, d: int|
                    input_slot(views, a, b) && input_slot(views, c, d) && slot_before(
                        a,
                        b,
                        k as int,
                        i as int,
                    ) && slot_before(c, d, k as int, i as int) && (a != c || b != d)
                        ==> #[trigger] input_at(views, a, b) != #[trigger] input_at(views, c, d),
            decreases transaction.inputs.len() - i,
        {
            let input = transaction.inputs[i];
            assert(input == input_at(views, k as int, i as int));
            if spent.contains(&input) {
                proof {
                    let (a, b) = choose|a: int, b: int|
                        input_slot(views, a, b) && slot_before(a, b, k as int, i as int)
                            && #[trigger] input_at(views, a, b) == input;
                    assert(input_slot(views, k as int, i as int));
                    assert(input_at(views, a, b) == input_at(views, k as int, i as int));
                }
                return false;
            }
            let ghost before = spent@;
            spent.insert(input);
            proof {
                assert forall|p: OutPoint| #[trigger] spent@.contains(p) implies exists|
                    a: int,
                    b: int,
                |
                    input_slot(views, a, b) && slot_before(a, b, k as int, i + 1)
                        && #[trigger] input_at(views, a, b) == p by {
                    if p == input {
                        assert(input_slot(views, k as int, i as int) && slot_before(
                            k as int,
                            i as int,
                            k as int,
                            i + 1,
                        ) && input_at(views, k as int, i as int) == p);
                    } else {
                        assert(before.contains(p));
                        let (a, b) = choose|a: int, b: int|
                            input_slot(views, a, b) && slot_before(a, b, k as int, i as int)
                                && #[trigger] input_at(views, a, b) == p;
                        assert(input_slot(views, a, b) && slot_before(a, b, k as int, i + 1)
                            && input_at(views, a, b) == p);
                    }
                }
                assert forall|a: int, b: int, c: int, d: int|
                    input_slot(views, a, b) && input_slot(views, c, d) && slot_before(
                        a,
                        b,
                        k as int,
                        i + 1,
                    ) && slot_before(c, d, k as int, i + 1) && (a != c || b != d)
                        implies #[trigger] input_at(views, a, b) != #[trigger] input_at(
                    views,
                    c,
                    d,
                ) by {
                    if a == k && b == i {
                        assert(before.contains(input_at(views, c, d)));
                    } else if c == k && d == i {
                        assert(before.contains(input_at(views, a, b)));
                    }
                }
            }
            i += 1;
        }
        k += 1;
    }
    true
}

/// Every withdrawal that a block creates is an output of one of its
/// transactions, which are numbered from `first`.
pub proof fn lemma_created_withdrawals_numbers(first: u64, transactions: Seq<TransactionView>)
    requires
        first + transactions.len() <= u64::MAX,
    ensures
        created_withdrawals(first, transactions).finite(),
        forall|p: OutPoint| #[trigger]
            created_withdrawals(first, transactions).contains(p) ==> regular_below(
                p,
                (first + transactions.len()) as u64,
            ) && !regular_below(p, first),
    decreases transactions.len(),
{
    if transactions.len() > 0 {
        lemma_created_withdrawals_numbers(first, transactions.drop_last());
        let number = (first + transactions.len() - 1) as u64;
        let outputs = transactions.last().outputs;
        lemma_created_in_finite(number, outputs);
    }
}

/// The withdrawals of one transaction are finitely many.
pub proof fn lemma_created_in_finite(number: u64, outputs: Seq<Output>)
    ensures
        created_in(number, outputs).finite(),
    decreases outputs.len(),
{
    if outputs.len() == 0 {
        assert(created_in(number, outputs) =~= Set::<OutPoint>::empty());
    } else {
        lemma_created_in_finite(number, outputs.drop_last());
        let rest = created_in(number, outputs.drop_last());
        let i = outputs.len() - 1;
        let p = sibling(regular_origin(number), i);
        assert forall|q: OutPoint| created_in(number, outputs).contains(q) implies #[trigger] rest.insert(
            p,
        ).contains(q) by {
            let j = choose|j: int|
                0 <= j < outputs.len() && #[trigger] outputs[j].is_withdrawal() && q == sibling(
                    regular_origin(number),
                    j,
                );
            if j < i {
                assert(outputs.drop_last()[j].is_withdrawal());
            }
        }
        assert(created_in(number, outputs).subset_of(rest.insert(p)));
        vstd::set_lib::lemma_len_subset(created_in(number, outputs), rest.insert(p));
    }
}

/// Connecting a block and then disconnecting it gives the store as it was.
pub proof fn lemma_connect_then_disconnect(
    before: UtxosView,
    after: UtxosView,
    block_height: u32,
    coinbase: Seq<Output>,
    transactions: Seq<TransactionView>,
)
    requires
        before.consistent(),
        before.connected(after, block_height, coinbase, transactions),
    ensures
        after.can_disconnect(block_height, coinbase.len(), transactions.len()),
        after.disconnect() == before,
{
    let first = before.transaction_number;
    lemma_created_withdrawals_numbers(first, transactions);
    assert(below(after.unlocked_withdrawals, first) =~= before.unlocked_withdrawals);
    assert(below(after.locked_withdrawals, first) =~= before.locked_withdrawals);
}

/// A valid block conserves value: no transaction pays out more than it
/// takes in, and the coinbase pays out no more than the fees.
pub proof fn lemma_valid_block_conserves(
    utxos: Map<OutPoint, Output>,
    coinbase: Seq<Output>,
    transactions: Seq<TransactionView>,
)
    requires
        valid_block(utxos, coinbase, transactions),
    ensures
        outputs_value(coinbase) <= total(block_fees(utxos, transactions)),
        forall|k: int|
            0 <= k < transactions.len() ==> (#[trigger] transactions[k]).value_out() <= value_in(
                utxos,
                transactions[k].inputs,
            ),
{
    assert forall|k: int| 0 <= k < transactions.len() implies (
    #[trigger] transactions[k]).value_out() <= value_in(utxos, transactions[k].inputs) by {
        assert(payable(utxos, transactions[k]));
    }
}

/// In a valid block no two transactions spend a common outpoint.
pub proof fn lemma_valid_block_inputs(
    utxos: Map<OutPoint, Output>,
    coinbase: Seq<Output>,
    transactions: Seq<TransactionView>,
    a: int,
    b: int,
)
    requires
        valid_block(utxos, coinbase, transactions),
        0 <= a < transactions.len(),
        0 <= b < transactions.len(),
        a != b,
    ensures
        transactions[a].inputs.to_set().disjoint(transactions[b].inputs.to_set()),
{
    assert forall|p: OutPoint|
        !(transactions[a].inputs.to_set().contains(p) && transactions[b].inputs.to_set().contains(
            p,
        )) by {
        if transactions[a].inputs.contains(p) && transactions[b].inputs.contains(p) {
            let i = choose|i: int|
                0 <= i < transactions[a].inputs.len() && transactions[a].inputs[i] == p;
            let j = choose|j: int|
                0 <= j < transactions[b].inputs.len() && transactions[b].inputs[j] == p;
            assert(input_slot(transactions, a, i) && input_slot(transactions, b, j));
            assert(input_at(transactions, a, i) != input_at(transactions, b, j));
        }
    }
}

/// The index of a withdrawal that none of the others enters a bundle before.
fn earliest(outpoints: &Vec<OutPoint>, fees: &Vec<u64>) -> (best: usize)
    requires
        outpoints@.len() > 0,
        fees@.len() == outpoints@.len(),
    ensures
        best < outpoints@.len(),
        forall|j: int|
            0 <= j < outpoints@.len() ==> !#[trigger] collected_before(
                fees@[j],
                outpoints@[j],
                fees@[best as int],
                outpoints@[best as int],
            ),
{
    let mut best: usize = 0;
    let mut i: usize = 1;
    proof {
        if collected_before(fees@[0], outpoints@[0], fees@[0], outpoints@[0]) {
            lemma_collected_before_asymmetric(fees@[0], outpoints@[0], fees@[0], outpoints@[0]);
        }
    }
    while i < outpoints.len()
        invariant
            1 <= i <= outpoints@.len(),
            fees@.len() == outpoints@.len(),
            best < i,
            forall|j: int|
                0 <= j < i ==> !#[trigger] collected_before(
                    fees@[j],
                    outpoints@[j],
                    fees@[best as int],
                    outpoints@[best as int],
                ),
        decreases outpoints.len() - i,
    {
        if precedes(fees[i], &outpoints[i], fees[best], &outpoints[best]) {
            proof {
                let fi = fees@[i as int];
                let pi = outpoints@[i as int];
                let fb = fees@[best as int];
                let pb = outpoints@[best as int];
                lemma_collected_before_asymmetric(fi, pi, fb, pb);
                assert forall|j: int| 0 <= j < i + 1 implies !#[trigger] collected_before(
                    fees@[j],
                    outpoints@[j],
                    fi,
                    pi,
                ) by {
                    if collected_before(fees@[j], outpoints@[j], fi, pi) {
                        if j == i {
                            lemma_collected_before_asymmetric(fi, pi, fi, pi);
                        } else {
                            lemma_collected_before_transitive(
                                fees@[j],
                                outpoints@[j],
                                fi,
                                pi,
                                fb,
                                pb,
                            );
                        }
                    }
                }
            }
            best = i;
        }
        i += 1;
    }
    best
}

impl Utxos {
    pub closed spec fn wf(&self) -> bool {
        &&& self.utxos.wf()
        &&& self.unlocked_withdrawals.wf()
        &&& self.locked_withdrawals.wf()
        &&& self@.consistent()
    }

    /// In a well-formed store the invariant of the tables holds.
    pub proof fn lemma_wf_consistent(&self)
        requires
            self.wf(),
        ensures
            self@.consistent(),
    {
    }

    /// An empty store: no outputs, all cursors at zero.
    pub fn new() -> (r: Utxos)
        ensures
            r.wf(),
            r@ == (UtxosView {
                utxos: Map::empty(),
                transaction_number: 0,
                main_block_height: 0,
                main_chain_tip: [0u8; HASH_LENGTH],
                side_block_height: 0,
                unlocked_withdrawals: Set::empty(),
                locked_withdrawals: Set::empty(),
                journal: Seq::empty(),
            }),
    {
        let r = Utxos {
            utxos: OutputTable::new(),
            transaction_number: 0,
            main_block_height: 0,
            main_chain_tip: [0u8; HASH_LENGTH],
            side_block_height: 0,
            unlocked_withdrawals: OutPointSet::new(),
            locked_withdrawals: OutPointSet::new(),
            journal: Vec::new(),
        };
        proof {
            assert(r@.journal =~= Seq::<UndoRecordView>::empty());
        }
        r
    }

    /// The whole UTXO set: each outpoint once, with its output.
    pub fn get_utxo_set(&self) -> (r: Vec<(OutPoint, Output)>)
        requires
            self.wf(),
        ensures
            entry_keys(r@).no_duplicates(),
            entries_map(r@) == self@.utxos,
    {
        self.utxos.entries()
    }

    pub fn get_main_block_height(&self) -> (r: u32)
        ensures
            r == self@.main_block_height,
    {
        self.main_block_height
    }

    pub fn set_main_block_height(&mut self, height: u32)
        requires
            old(self).wf(),
        ensures
            final(self).wf(),
            final(self)@ == (UtxosView { main_block_height: height, ..old(self)@ }),
    {
        self.main_block_height = height;
    }

    pub fn get_main_chain_tip(&self) -> (r: [u8; HASH_LENGTH])
        ensures
            r == self@.main_chain_tip,
    {
        self.main_chain_tip
    }

    pub fn set_main_chain_tip(&mut self, block_hash: &[u8; HASH_LENGTH])
        requires
            old(self).wf(),
        ensures
            final(self).wf(),
            final(self)@ == (UtxosView { main_chain_tip: *block_hash, ..old(self)@ }),
    {
        self.main_chain_tip = *block_hash;
    }

    pub fn get_side_block_height(&self) -> (r: u32)
        ensures
            r == self@.side_block_height,
    {
        self.side_block_height
    }

    pub fn set_side_block_height(&mut self, height: u32)
        requires
            old(self).wf(),
        ensures
            final(self).wf(),
            final(self)@ == (UtxosView { side_block_height: height, ..old(self)@ }),
    {
        self.side_block_height = height;
    }

    /// The output at `outpoint`, if it is unspent.
    pub fn get_utxo(&self, outpoint: &OutPoint) -> (r: Option<Output>)
        requires
            self.wf(),
        ensures
            r == (if self@.utxos.contains_key(*outpoint) {
                Some(self@.utxos[*outpoint])
            } else {
                None
            }),
    {
        self.utxos.get(outpoint)
    }

    /// The next unused transaction number.
    pub fn get_transaction_number(&self) -> (r: u64)
        ensures
            r == self@.transaction_number,
    {
        self.transaction_number
    }

    /// The unlocked withdrawals, each once.
    pub fn get_unlocked_withdrawals(&self) -> (r: Vec<OutPoint>)
        requires
            self.wf(),
        ensures
            r@.no_duplicates(),
            r@.to_set() == self@.unlocked_withdrawals,
    {
        self.unlocked_withdrawals.to_vec()
    }

    /// The locked withdrawals, each once.
    pub fn get_locked_withdrawals(&self) -> (r: Vec<OutPoint>)
        requires
            self.wf(),
        ensures
            r@.no_duplicates(),
            r@.to_set() == self@.locked_withdrawals,
    {
        self.locked_withdrawals.to_vec()
    }

    /// Whether no output is unspent.
    pub fn is_empty(&self) -> (r: bool)
        ensures
            r == (self@.utxos == Map::<OutPoint, Output>::empty()),
    {
        self.utxos.is_empty()
    }

    /// Puts `output` at `outpoint`, whatever was there.
    pub fn add_utxo(&mut self, outpoint: &OutPoint, output: &Output)
        requires
            old(self).wf(),
        ensures
            final(self).wf(),
            final(self)@ == (UtxosView {
                utxos: old(self)@.utxos.insert(*outpoint, *output),
                ..old(self)@
            }),
    {
        self.utxos.insert(*outpoint, *output);
    }

    /// Deletes what is at `outpoint`, if anything.
    pub fn remove_utxo(&mut self, outpoint: &OutPoint)
        requires
            old(self).wf(),
        ensures
            final(self).wf(),
            final(self)@ == (UtxosView {
                utxos: old(self)@.utxos.remove(*outpoint),
                ..old(self)@
            }),
    {
        self.utxos.remove(outpoint);
    }
    /// The fee that `transaction` pays against the current UTXO set.
    pub fn get_transaction_fee(&self, transaction: &Transaction) -> (r: Result<u64, Error>)
        requires
            self.wf(),
        ensures
            match r {
                Ok(fee) => payable(self@.utxos, transaction@) && fee == transaction_fee(
                    self@.utxos,
                    transaction@,
                ),
                Err(e) => e == Error::InvalidTransaction && !payable(self@.utxos, transaction@),
            },
    {
        let ghost amounts = input_values(self@.utxos, transaction@.inputs);
        let mut value_in: u64 = 0;
        let mut i: usize = 0;
        proof {
            assert(amounts.take(0) =~= Seq::<nat>::empty());
        }
        while i < transaction.inputs.len()
            invariant
                self.wf(),
                i <= transaction.inputs.len(),
                amounts == input_values(self@.utxos, transaction@.inputs),
                value_in == total(amounts.take(i as int)),
                forall|j: int| 0 <= j < i ==> self@.utxos.contains_key(#[trigger] transaction@.inputs[j]),
            decreases transaction.inputs.len() - i,
        {
            proof {
                lemma_total_take_succ(amounts, i as int);
                lemma_total_take_le(amounts, i + 1);
            }
            let spent = match self.utxos.get(&transaction.inputs[i]) {
                Some(spent) => spent,
                None => {
                    return Err(Error::InvalidTransaction);
                },
            };
            let value = match spent.checked_total_value() {
                Some(value) => value,
                None => {
                    return Err(Error::InvalidTransaction);
                },
            };
            value_in = match value_in.checked_add(value) {
                Some(sum) => sum,
                None => {
                    return Err(Error::InvalidTransaction);
                },
            };
            i += 1;
        }
        proof {
            assert(amounts.take(i as int) =~= amounts);
        }
        let value_out = match transaction.checked_value_out() {
            Some(value_out) => value_out,
            None => {
                return Err(Error::InvalidTransaction);
            },
        };
        if value_in < value_out {
            return Err(Error::InvalidTransaction);
        }
        Ok(value_in - value_out)
    }

    /// Whether the block may be connected to the current UTXO set.
    pub fn validate(&self, coinbase: &[Output], transactions: &[Transaction]) -> (r: bool)
        requires
            self.wf(),
        ensures
            r == valid_block(self@.utxos, coinbase@, transaction_views(transactions@)),
    {
        let ghost views = transaction_views(transactions@);
        let ghost fees = block_fees(self@.utxos, views);
        if !check_no_double_spend(transactions) {
            return false;
        }
        let mut total_fees: u64 = 0;
        let mut k: usize = 0;
        proof {
            assert(fees.take(0) =~= Seq::<nat>::empty());
        }
        while k < transactions.len()
            invariant
                self.wf(),
                k <= transactions.len(),
                views == transaction_views(transactions@),
                fees == block_fees(self@.utxos, views),
                total_fees == total(fees.take(k as int)),
                forall|j: int| 0 <= j < k ==> payable(self@.utxos, #[trigger] views[j]),
            decreases transactions.len() - k,
        {
            proof {
                lemma_total_take_succ(fees, k as int);
                lemma_total_take_le(fees, k + 1);
            }
            let fee = match self.get_transaction_fee(&transactions[k]) {
                Ok(fee) => fee,
                Err(_) => {
                    proof {
                        assert(!payable(self@.utxos, views[k as int]));
                    }
                    return false;
                },
            };
            total_fees = match total_fees.checked_add(fee) {
                Some(sum) => sum,
                None => {
                    return false;
                },
            };
            k += 1;
        }
        proof {
            assert(fees.take(k as int) =~= fees);
        }
        match checked_outputs_value(coinbase) {
            Some(coinbase_value) => coinbase_value <= total_fees,
            None => false,
        }
    }

    /// The address that owns each input of `transactions`, in order.
    pub fn extract_input_addresses(&self, transactions: &[Transaction]) -> (r: Result<
        Vec<[u8; ADDRESS_LENGTH]>,
        Error,
    >)
        requires
            self.wf(),
        ensures
            match r {
                Ok(addresses) => addresses@ == input_addresses(
                    self@.utxos,
                    transaction_views(transactions@),
                ) && forall|k: int|
                    0 <= k < transactions@.len() ==> inputs_exist(
                        self@.utxos,
                        (#[trigger] transactions@[k])@.inputs,
                    ),
                Err(e) => e == Error::InvalidTransaction && exists|k: int|
                    0 <= k < transactions@.len() && !inputs_exist(
                        self@.utxos,
                        (#[trigger] transactions@[k])@.inputs,
                    ),
            },
    {
        let ghost views = transaction_views(transactions@);
        let mut addresses: Vec<[u8; ADDRESS_LENGTH]> = Vec::new();
        let mut k: usize = 0;
        proof {
            assert(views.take(0) =~= Seq::<TransactionView>::empty());
        }
        while k < transactions.len()
            invariant
                self.wf(),
                k <= transactions.len(),
                views == transaction_views(transactions@),
                addresses@ == input_addresses(self@.utxos, views.take(k as int)),
                forall|j: int|
                    0 <= j < k ==> inputs_exist(self@.utxos, (#[trigger] transactions@[j])@.inputs),
            decreases transactions.len() - k,
        {
            let transaction = &transactions[k];
            let ghost collected = addresses@;
            let mut i: usize = 0;
            proof {
                assert(transaction@.inputs.take(0) =~= Seq::<OutPoint>::empty());
                assert(owners(self@.utxos, transaction@.inputs.take(0)) =~= Seq::<
                    [u8; ADDRESS_LENGTH],
                >::empty());
                assert(addresses@ =~= collected + owners(self@.utxos, transaction@.inputs.take(0)));
            }
            while i < transaction.inputs.len()
                invariant
                    self.wf(),
                    k < transactions.len(),
                    *transaction == transactions@[k as int],
                    i <= transaction.inputs.len(),
                    addresses@ == collected + owners(
                        self@.utxos,
                        transaction@.inputs.take(i as int),
                    ),
                    forall|j: int|
                        0 <= j < i ==> self@.utxos.contains_key(#[trigger] transaction@.inputs[j]),
                decreases transaction.inputs.len() - i,
            {
                let output = match self.utxos.get(&transaction.inputs[i]) {
                    Some(output) => output,
                    None => {
                        proof {
                            assert(!inputs_exist(self@.utxos, transactions@[k as int]@.inputs));
                        }
                        return Err(Error::InvalidTransaction);
                    },
                };
                addresses.push(output.address());
                proof {
                    assert(transaction@.inputs.take(i + 1) =~= transaction@.inputs.take(
                        i as int,
                    ).push(transaction@.inputs[i as int]));
                    assert(owners(self@.utxos, transaction@.inputs.take(i + 1)) =~= owners(
                        self@.utxos,
                        transaction@.inputs.take(i as int),
                    ).push(output.spec_address()));
                    assert(addresses@ =~= collected + owners(
                        self@.utxos,
                        transaction@.inputs.take(i + 1),
                    ));
                }
                i += 1;
            }
            proof {
                assert(transaction@.inputs.take(i as int) =~= transaction@.inputs);
                assert(views.take(k + 1).drop_last() =~= views.take(k as int));
                assert(views.take(k + 1).last() == transaction@);
            }
            k += 1;
        }
        proof {
            assert(views.take(k as int) =~= views);
        }
        Ok(addresses)
    }
    /// Whether a block can be connected: no list of outputs is longer than
    /// 256, and the counters have room.
    pub fn check_connect(&self, coinbase: &[Output], transactions: &[Transaction]) -> (r: Result<
        (),
        Error,
    >)
        ensures
            r == (if !within_output_limit(coinbase@, transaction_views(transactions@)) {
                Err::<(), Error>(Error::OutputLimit)
            } else if !self@.has_room(transactions@.len()) {
                Err(Error::StoreFailure)
            } else {
                Ok(())
            }),
    {
        let ghost views = transaction_views(transactions@);
        if coinbase.len() > MAX_COINBASE_OUTPUTS {
            return Err(Error::OutputLimit);
        }
        let mut k: usize = 0;
        while k < transactions.len()
            invariant
                k <= transactions.len(),
                views == transaction_views(transactions@),
                forall|j: int| 0 <= j < k ==> (#[trigger] views[j]).outputs.len() <= MAX_OUTPUTS_PER_TX,
            decreases transactions.len() - k,
        {
            if transactions[k].outputs.len() > MAX_OUTPUTS_PER_TX {
                proof {
                    assert(views[k as int].outputs.len() > MAX_OUTPUTS_PER_TX);
                }
                return Err(Error::OutputLimit);
            }
            k += 1;
        }
        if transactions.len() as u64 > u64::MAX - self.transaction_number || self.side_block_height
            == u32::MAX {
            return Err(Error::StoreFailure);
        }
        Ok(())
    }

    /// Whether every locked withdrawal can be refunded.
    pub fn bundle_is_refundable(&self) -> (r: bool)
        requires
            self.wf(),
        ensures
            r == self@.bundle_refundable(),
    {
        let locked = self.locked_withdrawals.to_vec();
        let mut i: usize = 0;
        while i < locked.len()
            invariant
                self.wf(),
                locked@.to_set() == self@.locked_withdrawals,
                i <= locked@.len(),
                forall|j: int| 0 <= j < i ==> refundable(self@.utxos, #[trigger] locked@[j]),
            decreases locked.len() - i,
        {
            let output = self.utxos.get(&locked[i]);
            let fits = match output {
                Some(Output::Withdrawal { value, fee, .. }) => value.checked_add(fee).is_some(),
                _ => false,
            };
            if !fits {
                proof {
                    assert(locked@.contains(locked@[i as int]));
                    assert(locked@.to_set().contains(locked@[i as int]));
                    assert(self@.locked_withdrawals.contains(locked@[i as int]));
                    assert(!refundable(self@.utxos, locked@[i as int]));
                }
                return false;
            }
            i += 1;
        }
        proof {
            assert forall|p: OutPoint| #[trigger]
                self@.locked_withdrawals.contains(p) implies refundable(self@.utxos, p) by {
                assert(locked@.contains(p));
                let j = choose|j: int| 0 <= j < locked@.len() && locked@[j] == p;
                assert(refundable(self@.utxos, locked@[j]));
            }
        }
        true
    }

    /// Applies one block: emits the coinbase outputs under `block_height`,
    /// then for each transaction deletes its inputs and emits its outputs
    /// under the next transaction number. Performs no validation.
    pub fn connect(
        &mut self,
        block_height: u32,
        coinbase: &[Output],
        transactions: &[Transaction],
    ) -> (r: Result<(), Error>)
        requires
            old(self).wf(),
        ensures
            final(self).wf(),
            match r {
                Ok(()) => {
                    &&& within_output_limit(coinbase@, transaction_views(transactions@))
                    &&& old(self)@.has_room(transactions@.len())
                    &&& old(self)@.connected(
                        final(self)@,
                        block_height,
                        coinbase@,
                        transaction_views(transactions@),
                    )
                },
                Err(e) => {
                    &&& final(self)@ == old(self)@
                    &&& e == (if !within_output_limit(coinbase@, transaction_views(transactions@)) {
                        Error::OutputLimit
                    } else {
                        Error::StoreFailure
                    })
                    &&& !within_output_limit(coinbase@, transaction_views(transactions@))
                        || !old(self)@.has_room(transactions@.len())
                },
            },
    {
        let ghost views = transaction_views(transactions@);
        match self.check_connect(coinbase, transactions) {
            Ok(()) => {},
            Err(e) => {
                return Err(e);
            },
        }
        let first = self.transaction_number;
        proof {
            self.unlocked_withdrawals.lemma_finite();
            self.locked_withdrawals.lemma_finite();
        }
        let mut log: Vec<(OutPoint, Option<Output>)> = Vec::new();
        emit_outputs(
            &mut self.utxos,
            &mut log,
            OutPoint::Coinbase { block_number: block_height, output_number: 0 },
            coinbase,
        );
        let ghost emitted = self.utxos@;
        let mut k: usize = 0;
        proof {
            assert(views.take(0) =~= Seq::<TransactionView>::empty());
            assert(self.unlocked_withdrawals@ =~= old(self)@.unlocked_withdrawals
                + created_withdrawals(first, views.take(0)));
        }
        while k < transactions.len()
            invariant
                k <= transactions.len(),
                views == transaction_views(transactions@),
                first + transactions.len() <= u64::MAX,
                forall|j: int|
                    0 <= j < views.len() ==> (#[trigger] views[j]).outputs.len() <= MAX_OUTPUTS_PER_TX,
                self.utxos.wf(),
                self.unlocked_withdrawals.wf(),
                self.utxos@ == apply_transactions(emitted, first, views.take(k as int)),
                rollback(self.utxos@, log@) == old(self)@.utxos,
                self.unlocked_withdrawals@ == old(self)@.unlocked_withdrawals + created_withdrawals(
                    first,
                    views.take(k as int),
                ),
                self.locked_withdrawals == old(self).locked_withdrawals,
                self.journal == old(self).journal,
                self.transaction_number == old(self).transaction_number,
                self.side_block_height == old(self).side_block_height,
                self.main_block_height == old(self).main_block_height,
                self.main_chain_tip == old(self).main_chain_tip,
            decreases transactions.len() - k,
        {
            let transaction = &transactions[k];
            let number = first + k as u64;
            assert(transaction.outputs@.len() <= 256) by {
                assert(views[k as int].outputs.len() <= MAX_OUTPUTS_PER_TX);
            }
            spend_inputs(&mut self.utxos, &mut log, transaction.inputs.as_slice());
            emit_outputs(
                &mut self.utxos,
                &mut log,
                OutPoint::Regular { transaction_number: number, output_number: 0 },
                transaction.outputs.as_slice(),
            );
            note_withdrawals(
                &mut self.unlocked_withdrawals,
                number,
                transaction.outputs.as_slice(),
            );
            proof {
                assert(views.take(k + 1).drop_last() =~= views.take(k as int));
                assert(views.take(k + 1).last() == transaction@);
                assert(self.unlocked_withdrawals@ =~= old(self)@.unlocked_withdrawals
                    + created_withdrawals(first, views.take(k + 1)));
            }
            k += 1;
        }
        proof {
            assert(views.take(k as int) =~= views);
            lemma_created_withdrawals_numbers(first, views);
            self.unlocked_withdrawals.lemma_finite();
        }
        let ghost journal_before = self@.journal;
        self.journal.push(
            UndoRecord {
                block_height,
                coinbase_outputs: coinbase.len(),
                prior_outputs: log,
                transaction_number: first,
                side_block_height: self.side_block_height,
            },
        );
        self.transaction_number = first + transactions.len() as u64;
        self.side_block_height = self.side_block_height + 1;
        proof {
            assert(self@.journal =~= journal_before.push(self@.journal.last()));
            assert(self@.journal.drop_last() =~= old(self)@.journal);
            assert forall|p: OutPoint| #[trigger]
                self@.unlocked_withdrawals.contains(p) implies regular_below(
                p,
                self@.transaction_number,
            ) && !self@.locked_withdrawals.contains(p) by {
                if !old(self)@.unlocked_withdrawals.contains(p) {
                    assert(created_withdrawals(first, views).contains(p));
                } else {
                    assert(regular_below(p, first));
                }
            }
        }
        Ok(())
    }

    /// Takes the newest connected block back out: the UTXO set, the
    /// counters and the withdrawal sets return to what they were before it.
    pub fn disconnect(
        &mut self,
        block_height: u32,
        coinbase: &[Output],
        transactions: &[Transaction],
    ) -> (r: Result<(), Error>)
        requires
            old(self).wf(),
        ensures
            final(self).wf(),
            match r {
                Ok(()) => old(self)@.can_disconnect(
                    block_height,
                    coinbase@.len(),
                    transactions@.len(),
                ) && final(self)@ == old(self)@.disconnect(),
                Err(e) => e == Error::StoreFailure && !old(self)@.can_disconnect(
                    block_height,
                    coinbase@.len(),
                    transactions@.len(),
                ) && final(self)@ == old(self)@,
            },
    {
        if self.journal.len() == 0 {
            return Err(Error::StoreFailure);
        }
        let last = self.journal.len() - 1;
        assert(self@.journal.last() == self.journal@[last as int]@);
        let matches = self.journal[last].block_height == block_height
            && self.journal[last].coinbase_outputs == coinbase.len()
            && self.journal[last].transaction_number <= self.transaction_number
            && transactions.len() as u64 == self.transaction_number
            - self.journal[last].transaction_number;
        if !matches {
            return Err(Error::StoreFailure);
        }
        let ghost journal_before = self@.journal;
        let record = match self.journal.pop() {
            Some(record) => record,
            None => {
                return Err(Error::StoreFailure);
            },
        };
        proof {
            assert(self@.journal =~= journal_before.drop_last());
            assert(record@ == journal_before.last());
        }
        let mut j: usize = record.prior_outputs.len();
        proof {
            assert(record.prior_outputs@.take(j as int) =~= record.prior_outputs@);
        }
        while j > 0
            invariant
                j <= record.prior_outputs.len(),
                self.utxos.wf(),
                rollback(self.utxos@, record.prior_outputs@.take(j as int)) == rollback(
                    old(self)@.utxos,
                    record.prior_outputs@,
                ),
                self.unlocked_withdrawals == old(self).unlocked_withdrawals,
                self.locked_withdrawals == old(self).locked_withdrawals,
                self@.journal == old(self)@.journal.drop_last(),
                self.transaction_number == old(self).transaction_number,
                self.side_block_height == old(self).side_block_height,
                self.main_block_height == old(self).main_block_height,
                self.main_chain_tip == old(self).main_chain_tip,
            decreases j,
        {
            j -= 1;
            let (outpoint, prior) = record.prior_outputs[j];
            proof {
                assert(record.prior_outputs@.take(j + 1).drop_last()
                    =~= record.prior_outputs@.take(j as int));
                assert(record.prior_outputs@.take(j + 1).last() == (outpoint, prior));
            }
            match prior {
                Some(output) => {
                    self.utxos.insert(outpoint, output);
                },
                None => {
                    self.utxos.remove(&outpoint);
                },
            }
        }
        self.unlocked_withdrawals.retain_regular_below(record.transaction_number);
        self.locked_withdrawals.retain_regular_below(record.transaction_number);
        self.transaction_number = record.transaction_number;
        self.side_block_height = record.side_block_height;
        proof {
            self.unlocked_withdrawals.lemma_finite();
            self.locked_withdrawals.lemma_finite();
        }
        Ok(())
    }
    /// Forms a bundle: locks up to 6000 of the unlocked withdrawals, those
    /// with the lowest fees first.
    pub fn collect_withdrawals(&mut self) -> (r: Result<(), Error>)
        requires
            old(self).wf(),
        ensures
            final(self).wf(),
            match r {
                Ok(()) => {
                    &&& old(self)@.locked_withdrawals == Set::<OutPoint>::empty()
                    &&& old(self)@.bundle_ready()
                    &&& old(self)@.collected(final(self)@)
                },
                Err(e) => {
                    &&& final(self)@ == old(self)@
                    &&& e == (if old(self)@.locked_withdrawals != Set::<OutPoint>::empty() {
                        Error::BundlePending
                    } else {
                        Error::StoreFailure
                    })
                    &&& old(self)@.locked_withdrawals != Set::<OutPoint>::empty()
                        || !old(self)@.bundle_ready()
                },
            },
    {
        if !self.locked_withdrawals.is_empty() {
            return Err(Error::BundlePending);
        }
        let ghost utxos = self@.utxos;
        let ghost unlocked = self@.unlocked_withdrawals;
        let mut remaining = self.unlocked_withdrawals.to_vec();
        let ghost all = remaining@;
        proof {
            self.unlocked_withdrawals.lemma_finite();
        }
        let mut fees: Vec<u64> = Vec::new();
        let mut i: usize = 0;
        while i < remaining.len()
            invariant
                self.wf(),
                self@ == old(self)@,
                utxos == self@.utxos,
                unlocked == self@.unlocked_withdrawals,
                self@.locked_withdrawals == Set::<OutPoint>::empty(),
                remaining@ == all,
                all.to_set() == unlocked,
                i <= remaining@.len(),
                fees@.len() == i,
                forall|j: int|
                    0 <= j < i ==> resolves_to_withdrawal(utxos, #[trigger] remaining@[j])
                        && fees@[j] == withdrawal_fee(utxos, remaining@[j]),
            decreases remaining.len() - i,
        {
            match self.utxos.get(&remaining[i]) {
                Some(Output::Withdrawal { fee, .. }) => {
                    fees.push(fee);
                },
                _ => {
                    proof {
                        assert(all.contains(remaining@[i as int]));
                        assert(unlocked.contains(remaining@[i as int]));
                    }
                    return Err(Error::StoreFailure);
                },
            }
            i += 1;
        }
        proof {
            assert forall|p: OutPoint| #[trigger] unlocked.contains(p) implies resolves_to_withdrawal(
                utxos,
                p,
            ) by {
                assert(all.contains(p));
                let j = choose|j: int| 0 <= j < all.len() && all[j] == p;
                assert(resolves_to_withdrawal(utxos, remaining@[j]));
            }
        }
        let mut picked: Vec<OutPoint> = Vec::new();
        while picked.len() < MAX_WITHDRAWAL_BUNDLE_OUTPUTS && remaining.len() > 0
            invariant
                all.no_duplicates(),
                remaining@.no_duplicates(),
                picked@.no_duplicates(),
                fees@.len() == remaining@.len(),
                forall|j: int|
                    0 <= j < remaining@.len() ==> #[trigger] fees@[j] == withdrawal_fee(
                        utxos,
                        remaining@[j],
                    ),
                remaining@.len() + picked@.len() == all.len(),
                picked@.len() <= MAX_WITHDRAWAL_BUNDLE_OUTPUTS,
                forall|p: OutPoint|
                    all.contains(p) <==> (remaining@.contains(p) || picked@.contains(p)),
                forall|p: OutPoint| !(remaining@.contains(p) && picked@.contains(p)),
                forall|a: int, b: int|
                    0 <= a < picked@.len() && 0 <= b < remaining@.len() ==> !#[trigger] enters_before(
                        utxos,
                        remaining@[b],
                        picked@[a],
                    ),
            decreases remaining@.len(),
        {
            let best = earliest(&remaining, &fees);
            let ghost remaining_before = remaining@;
            let ghost picked_before = picked@;
            let ghost fees_before = fees@;
            let outpoint = remaining.remove(best);
            let _ = fees.remove(best);
            picked.push(outpoint);
            proof {
                let rem = remaining@;
                assert(rem =~= remaining_before.remove(best as int));
                assert(fees@ =~= fees_before.remove(best as int));
                assert forall|a: int| 0 <= a < rem.len() implies #[trigger] rem[a]
                    == remaining_before[if a < best {
                    a
                } else {
                    a + 1
                }] by {}
                assert(picked@ =~= picked_before.push(outpoint));
                assert(remaining_before.contains(outpoint));
                assert forall|a: int, b: int|
                    0 <= a < rem.len() && 0 <= b < rem.len() && a != b implies rem[a] != rem[b] by {
                    let a0 = if a < best { a } else { a + 1 };
                    let b0 = if b < best { b } else { b + 1 };
                    assert(remaining_before[a0] != remaining_before[b0]);
                }
                assert forall|a: int| 0 <= a < rem.len() implies rem[a] != outpoint by {
                    let a0 = if a < best { a } else { a + 1 };
                    assert(remaining_before[a0] != remaining_before[best as int]);
                }
                assert forall|a: int, b: int|
                    0 <= a < picked@.len() && 0 <= b < picked@.len() && a != b implies picked@[a]
                    != picked@[b] by {
                    if a == picked_before.len() {
                        assert(picked_before.contains(picked@[b]));
                    } else if b == picked_before.len() {
                        assert(picked_before.contains(picked@[a]));
                    }
                }
                assert forall|p: OutPoint|
                    remaining_before.contains(p) <==> (rem.contains(p) || p == outpoint) by {
                    if remaining_before.contains(p) && p != outpoint {
                        let j = choose|j: int|
                            0 <= j < remaining_before.len() && remaining_before[j] == p;
                        let j1 = if j < best { j } else { j - 1 };
                        assert(rem[j1] == p);
                    }
                    if rem.contains(p) {
                        let j = choose|j: int| 0 <= j < rem.len() && rem[j] == p;
                        let j0 = if j < best { j } else { j + 1 };
                        assert(remaining_before[j0] == p);
                    }
                }
                assert forall|p: OutPoint|
                    picked@.contains(p) <==> (picked_before.contains(p) || p == outpoint) by {
                    if picked@.contains(p) {
                        let j = choose|j: int| 0 <= j < picked@.len() && picked@[j] == p;
                        if j < picked_before.len() {
                            assert(picked_before[j] == p);
                        }
                    }
                    if picked_before.contains(p) {
                        let j = choose|j: int|
                            0 <= j < picked_before.len() && picked_before[j] == p;
                        assert(picked@[j] == p);
                    }
                    if p == outpoint {
                        assert(picked@[picked_before.len() as int] == p);
                    }
                }
                assert forall|a: int, b: int|
                    0 <= a < picked@.len() && 0 <= b < rem.len() implies !#[trigger] enters_before(
                    utxos,
                    rem[b],
                    picked@[a],
                ) by {
                    let b0 = if b < best { b } else { b + 1 };
                    if a < picked_before.len() {
                        assert(!enters_before(utxos, remaining_before[b0], picked_before[a]));
                    } else {
                        assert(!collected_before(
                            fees_before[b0],
                            remaining_before[b0],
                            fees_before[best as int],
                            remaining_before[best as int],
                        ));
                    }
                }
            }
        }
        proof {
            all.unique_seq_to_set();
            picked@.unique_seq_to_set();
            assert(remaining@.to_set() =~= unlocked.difference(picked@.to_set())) by {
                assert forall|p: OutPoint|
                    remaining@.to_set().contains(p) <==> #[trigger] unlocked.difference(
                        picked@.to_set(),
                    ).contains(p) by {
                    assert(all.to_set().contains(p) == all.contains(p));
                }
            }
            assert(picked@.to_set().subset_of(unlocked)) by {
                assert forall|p: OutPoint| picked@.to_set().contains(p) implies unlocked.contains(
                    p,
                ) by {
                    assert(all.contains(p));
                }
            }
            assert forall|p: OutPoint, q: OutPoint|
                picked@.to_set().contains(p) && remaining@.to_set().contains(q)
                    implies #[trigger] enters_before(utxos, p, q) by {
                let a = choose|a: int| 0 <= a < picked@.len() && picked@[a] == p;
                let b = choose|b: int| 0 <= b < remaining@.len() && remaining@[b] == q;
                assert(!enters_before(utxos, remaining@[b], picked@[a]));
                assert(remaining@.contains(q) && picked@.contains(p));
                lemma_collected_before_total(
                    withdrawal_fee(utxos, p),
                    p,
                    withdrawal_fee(utxos, q),
                    q,
                );
            }
        }
        self.unlocked_withdrawals = OutPointSet::from_distinct(remaining);
        self.locked_withdrawals = OutPointSet::from_distinct(picked);
        proof {
            self.unlocked_withdrawals.lemma_finite();
            self.locked_withdrawals.lemma_finite();
        }
        Ok(())
    }

    /// The pending bundle: each locked withdrawal that is in the UTXO set,
    /// with its output.
    pub fn get_pending_withdrawal_bundle(&self) -> (r: Vec<(OutPoint, Output)>)
        requires
            self.wf(),
        ensures
            entry_keys(r@).no_duplicates(),
            entries_map(r@) == self@.utxos.restrict(self@.locked_withdrawals),
    {
        let locked = self.locked_withdrawals.to_vec();
        let mut bundle: Vec<(OutPoint, Output)> = Vec::new();
        let mut i: usize = 0;
        proof {
            assert(locked@.take(0).to_set() =~= Set::<OutPoint>::empty());
            assert(entries_map(bundle@) =~= self@.utxos.restrict(locked@.take(0).to_set()));
        }
        while i < locked.len()
            invariant
                self.wf(),
                i <= locked@.len(),
                locked@.no_duplicates(),
                entry_keys(bundle@).no_duplicates(),
                forall|j: int|
                    0 <= j < bundle@.len() ==> locked@.take(i as int).contains(
                        (#[trigger] bundle@[j]).0,
                    ) && self@.utxos.contains_key(bundle@[j].0) && self@.utxos[bundle@[j].0]
                        == bundle@[j].1,
                forall|a: int|
                    0 <= a < i && self@.utxos.contains_key(#[trigger] locked@[a]) ==> entry_keys(
                        bundle@,
                    ).contains(locked@[a]),
            decreases locked.len() - i,
        {
            let outpoint = locked[i];
            let ghost before = bundle@;
            match self.utxos.get(&outpoint) {
                Some(output) => {
                    bundle.push((outpoint, output));
                    proof {
                        assert(entry_keys(bundle@) =~= entry_keys(before).push(outpoint));
                        assert forall|a: int, b: int|
                            0 <= a < bundle@.len() && 0 <= b < bundle@.len() && a != b implies entry_keys(
                            bundle@,
                        )[a] != entry_keys(bundle@)[b] by {
                            if a < before.len() && b < before.len() {
                                assert(entry_keys(before)[a] != entry_keys(before)[b]);
                            } else if a < before.len() {
                                assert(locked@.take(i as int).contains(before[a].0));
                            } else {
                                assert(locked@.take(i as int).contains(before[b].0));
                            }
                        }
                        assert forall|a: int|
                            0 <= a < i + 1 && self@.utxos.contains_key(
                                #[trigger] locked@[a],
                            ) implies entry_keys(bundle@).contains(locked@[a]) by {
                            if a < i {
                                let j = choose|j: int|
                                    0 <= j < entry_keys(before).len() && entry_keys(before)[j]
                                        == locked@[a];
                                assert(entry_keys(bundle@)[j] == locked@[a]);
                            } else {
                                assert(entry_keys(bundle@)[before.len() as int] == locked@[a]);
                            }
                        }
                    }
                },
                None => {},
            }
            proof {
                assert forall|j: int| 0 <= j < bundle@.len() implies locked@.take(i + 1).contains(
                    (#[trigger] bundle@[j]).0,
                ) by {
                    if j < before.len() {
                        let a = choose|a: int|
                            0 <= a < locked@.take(i as int).len() && locked@.take(i as int)[a]
                                == before[j].0;
                        assert(locked@.take(i + 1)[a] == bundle@[j].0);
                    } else {
                        assert(locked@.take(i + 1)[i as int] == bundle@[j].0);
                    }
                }
            }
            i += 1;
        }
        proof {
            assert(locked@.take(i as int) =~= locked@);
            let goal = self@.utxos.restrict(self@.locked_withdrawals);
            assert forall|p: OutPoint| entries_map(bundle@).contains_key(p) <==> goal.contains_key(
                p,
            ) by {
                if entries_map(bundle@).contains_key(p) {
                    let j = choose|j: int| 0 <= j < bundle@.len() && (#[trigger] bundle@[j]).0 == p;
                    assert(locked@.contains(bundle@[j].0));
                }
                if goal.contains_key(p) {
                    assert(locked@.contains(p));
                    let a = choose|a: int| 0 <= a < locked@.len() && locked@[a] == p;
                    assert(entry_keys(bundle@).contains(locked@[a]));
                    let j = choose|j: int|
                        0 <= j < entry_keys(bundle@).len() && entry_keys(bundle@)[j] == p;
                    assert(bundle@[j].0 == p);
                }
            }
            assert forall|p: OutPoint| #[trigger]
                entries_map(bundle@).contains_key(p) implies entries_map(bundle@)[p] == goal[p] by {
                let j = choose|j: int| 0 <= j < bundle@.len() && (#[trigger] bundle@[j]).0 == p;
                crate::tables::lemma_entries_map_at(bundle@, j);
            }
            assert(entries_map(bundle@) =~= goal);
        }
        bundle
    }

    /// The parent chain took the bundle in: nothing changes here.
    pub fn submit_bundle(&mut self, m6id: &[u8; HASH_LENGTH])
        requires
            old(self).wf(),
        ensures
            final(self).wf(),
            final(self)@ == old(self)@,
    {
    }

    /// The parent chain paid the bundle out: the locked withdrawals leave
    /// the UTXO set, and no withdrawal stays locked.
    pub fn succeed_bundle(&mut self, m6id: &[u8; HASH_LENGTH])
        requires
            old(self).wf(),
        ensures
            final(self).wf(),
            final(self)@ == (UtxosView {
                utxos: old(self)@.utxos.remove_keys(old(self)@.locked_withdrawals),
                locked_withdrawals: Set::empty(),
                ..old(self)@
            }),
    {
        let locked = self.locked_withdrawals.to_vec();
        let mut i: usize = 0;
        proof {
            assert(locked@.take(0).to_set() =~= Set::<OutPoint>::empty());
            assert(self.utxos@ =~= old(self)@.utxos.remove_keys(locked@.take(0).to_set()));
        }
        while i < locked.len()
            invariant
                i <= locked@.len(),
                self.utxos.wf(),
                self.utxos@ == old(self)@.utxos.remove_keys(locked@.take(i as int).to_set()),
                self.unlocked_withdrawals == old(self).unlocked_withdrawals,
                self.locked_withdrawals == old(self).locked_withdrawals,
                self.journal == old(self).journal,
                self.transaction_number == old(self).transaction_number,
                self.side_block_height == old(self).side_block_height,
                self.main_block_height == old(self).main_block_height,
                self.main_chain_tip == old(self).main_chain_tip,
            decreases locked.len() - i,
        {
            self.utxos.remove(&locked[i]);
            proof {
                let a = locked@.take(i as int);
                let b = locked@.take(i + 1);
                assert(b =~= a.push(locked@[i as int]));
                assert forall|p: OutPoint|
                    b.contains(p) <==> (a.contains(p) || p == locked@[i as int]) by {
                    if b.contains(p) {
                        let j = choose|j: int| 0 <= j < b.len() && b[j] == p;
                        if j < a.len() {
                            assert(a[j] == p);
                        }
                    }
                    if a.contains(p) {
                        let j = choose|j: int| 0 <= j < a.len() && a[j] == p;
                        assert(b[j] == p);
                    }
                    if p == locked@[i as int] {
                        assert(b[i as int] == p);
                    }
                }
                assert(b.to_set() =~= a.to_set().insert(locked@[i as int]));
                assert(self.utxos@ =~= old(self)@.utxos.remove_keys(b.to_set()));
            }
            i += 1;
        }
        proof {
            assert(locked@.take(i as int) =~= locked@);
            old(self).unlocked_withdrawals.lemma_finite();
        }
        self.locked_withdrawals.clear();
        proof {
            self.locked_withdrawals.lemma_finite();
        }
    }

    /// The parent chain rejected the bundle: each locked withdrawal is
    /// replaced, at its outpoint, by a regular output that gives its value
    /// and fee back to its sidechain address, and no withdrawal stays locked.
    pub fn fail_bundle(&mut self, m6id: &[u8; HASH_LENGTH]) -> (r: Result<(), Error>)
        requires
            old(self).wf(),
        ensures
            final(self).wf(),
            match r {
                Ok(()) => old(self)@.bundle_refundable() && final(self)@ == (UtxosView {
                    utxos: refunded(old(self)@.utxos, old(self)@.locked_withdrawals),
                    locked_withdrawals: Set::empty(),
                    ..old(self)@
                }),
                Err(e) => e == Error::StoreFailure && !old(self)@.bundle_refundable()
                    && final(self)@ == old(self)@,
            },
    {
        let locked = self.locked_withdrawals.to_vec();
        let mut refunds: Vec<Output> = Vec::new();
        let mut i: usize = 0;
        while i < locked.len()
            invariant
                self.wf(),
                self@ == old(self)@,
                locked@.to_set() == self@.locked_withdrawals,
                i <= locked@.len(),
                refunds@.len() == i,
                forall|j: int|
                    0 <= j < i ==> refundable(self@.utxos, #[trigger] locked@[j]) && refunds@[j]
                        == refund(self@.utxos[locked@[j]]),
            decreases locked.len() - i,
        {
            let output = self.utxos.get(&locked[i]);
            let total = match output {
                Some(Output::Withdrawal { value, fee, .. }) => value.checked_add(fee),
                _ => None,
            };
            match (output, total) {
                (Some(output), Some(total)) => {
                    refunds.push(Output::Regular { address: output.address(), value: total });
                },
                _ => {
                    proof {
                        assert(locked@.contains(locked@[i as int]));
                        assert(locked@.to_set().contains(locked@[i as int]));
                        assert(self@.locked_withdrawals.contains(locked@[i as int]));
                        assert(!refundable(self@.utxos, locked@[i as int]));
                    }
                    return Err(Error::StoreFailure);
                },
            }
            i += 1;
        }
        proof {
            assert forall|p: OutPoint| #[trigger]
                self@.locked_withdrawals.contains(p) implies refundable(self@.utxos, p) by {
                assert(locked@.contains(p));
                let j = choose|j: int| 0 <= j < locked@.len() && locked@[j] == p;
                assert(refundable(self@.utxos, locked@[j]));
            }
        }
        let mut i: usize = 0;
        proof {
            assert(locked@.take(0).to_set() =~= Set::<OutPoint>::empty());
            assert(self.utxos@ =~= refunded(old(self)@.utxos, locked@.take(0).to_set()));
        }
        while i < locked.len()
            invariant
                i <= locked@.len(),
                refunds@.len() == locked@.len(),
                locked@.no_duplicates(),
                forall|j: int|
                    0 <= j < locked@.len() ==> refundable(old(self)@.utxos, #[trigger] locked@[j])
                        && refunds@[j] == refund(old(self)@.utxos[locked@[j]]),
                self.utxos.wf(),
                self.utxos@ == refunded(old(self)@.utxos, locked@.take(i as int).to_set()),
                self.unlocked_withdrawals == old(self).unlocked_withdrawals,
                self.locked_withdrawals == old(self).locked_withdrawals,
                self.journal == old(self).journal,
                self.transaction_number == old(self).transaction_number,
                self.side_block_height == old(self).side_block_height,
                self.main_block_height == old(self).main_block_height,
                self.main_chain_tip == old(self).main_chain_tip,
            decreases locked.len() - i,
        {
            self.utxos.insert(locked[i], refunds[i]);
            proof {
                let a = locked@.take(i as int);
                let b = locked@.take(i + 1);
                assert(b =~= a.push(locked@[i as int]));
                assert forall|p: OutPoint|
                    b.contains(p) <==> (a.contains(p) || p == locked@[i as int]) by {
                    if b.contains(p) {
                        let j = choose|j: int| 0 <= j < b.len() && b[j] == p;
                        if j < a.len() {
                            assert(a[j] == p);
                        }
                    }
                    if a.contains(p) {
                        let j = choose|j: int| 0 <= j < a.len() && a[j] == p;
                        assert(b[j] == p);
                    }
                    if p == locked@[i as int] {
                        assert(b[i as int] == p);
                    }
                }
                assert(b.to_set() =~= a.to_set().insert(locked@[i as int]));
                assert(self.utxos@ =~= refunded(old(self)@.utxos, b.to_set()));
            }
            i += 1;
        }
        proof {
            assert(locked@.take(i as int) =~= locked@);
            old(self).unlocked_withdrawals.lemma_finite();
        }
        self.locked_withdrawals.clear();
        proof {
            self.locked_withdrawals.lemma_finite();
        }
        Ok(())
    }
}

} // verus!
