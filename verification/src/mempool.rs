//! The mempool: pending transactions in order of priority, and the most
//! recent selection of transactions for a block.

use vstd::prelude::*;
use crate::clock::unix_timestamp;
use crate::codec::{encode_transaction, serialize_transaction};
use crate::hashing::{blake3_hash, transaction_hash, Hashable};
use crate::tables::OutPointSet;
use crate::types::{
    bytes_equal, Error, OutPoint, Transaction, TransactionView, transaction_views,
    BLOCK_SIZE_LIMIT, HASH_LENGTH,
};

verus! {

/// A pending transaction with what the pool knows of it.
pub struct MempoolEntry {
    hash: [u8; HASH_LENGTH],
    transaction: Transaction,
    fee: u64,
    size: u32,
    timestamp: u64,
}

pub struct EntryView {
    pub hash: Seq<u8>,
    pub transaction: TransactionView,
    pub fee: u64,
    /// The length of the transaction's canonical bytes, or the largest
    /// 32-bit number where the length is beyond it.
    pub size: u32,
    /// Unix seconds at which the transaction was submitted.
    pub timestamp: u64,
}

impl View for MempoolEntry {
    type V = EntryView;

    closed spec fn view(&self) -> EntryView {
        EntryView {
            hash: self.hash@,
            transaction: self.transaction@,
            fee: self.fee,
            size: self.size,
            timestamp: self.timestamp,
        }
    }
}

/// The size that the pool records for a transaction.
pub open spec fn recorded_size(transaction: TransactionView) -> u32 {
    let length = encode_transaction(transaction).len();
    if length <= u32::MAX {
        length as u32
    } else {
        u32::MAX
    }
}

/// The entry of a transaction submitted with `fee` at `timestamp`.
pub open spec fn entry_for(transaction: TransactionView, fee: u64, timestamp: u64) -> EntryView {
    EntryView {
        hash: transaction_hash(transaction),
        transaction,
        fee,
        size: recorded_size(transaction),
        timestamp,
    }
}

/// Whether `a` has priority over `b`: it pays the higher fee; or the same
/// fee and is smaller; or the same fee, is as large, and is older.
pub open spec fn ranks_before(a: EntryView, b: EntryView) -> bool {
    a.fee > b.fee || (a.fee == b.fee && (a.size < b.size || (a.size == b.size && a.timestamp
        < b.timestamp)))
}

pub open spec fn contains_hash(entries: Seq<EntryView>, hash: Seq<u8>) -> bool {
    exists|i: int| 0 <= i < entries.len() && (#[trigger] entries[i]).hash == hash
}

/// An index at which the entry with `hash` stands.
pub open spec fn index_of_hash(entries: Seq<EntryView>, hash: Seq<u8>) -> int {
    choose|i: int| 0 <= i < entries.len() && (#[trigger] entries[i]).hash == hash
}

/// Where a new entry goes: before the first entry that it has priority
/// over, or at the end.
pub open spec fn position(entries: Seq<EntryView>, entry: EntryView) -> int
    decreases entries.len(),
{
    if entries.len() == 0 || ranks_before(entry, entries.first()) {
        0
    } else {
        1 + position(entries.drop_first(), entry)
    }
}

/// The entries without the one that has `hash`.
pub open spec fn without(entries: Seq<EntryView>, hash: Seq<u8>) -> Seq<EntryView> {
    if contains_hash(entries, hash) {
        entries.remove(index_of_hash(entries, hash))
    } else {
        entries
    }
}

/// Of `entries`, those that pay `fee`, in order: hash, size and time.
pub open spec fn paying(entries: Seq<EntryView>, fee: u64) -> Seq<(Seq<u8>, u32, u64)>
    decreases entries.len(),
{
    if entries.len() == 0 {
        Seq::empty()
    } else if entries.last().fee == fee {
        paying(entries.drop_last(), fee).push(
            (entries.last().hash, entries.last().size, entries.last().timestamp),
        )
    } else {
        paying(entries.drop_last(), fee)
    }
}

/// What a connected block took from the pool.
pub struct MempoolUndoView {
    /// The entries that the block removed, in the order removed, each with
    /// the place it had when it was removed.
    pub removed: Seq<(int, EntryView)>,
    /// The selection that the block cleared.
    pub pending_selected: Seq<Seq<u8>>,
}

/// The tables of the mempool.
pub struct MempoolView {
    /// The pending transactions, the one with the highest priority first.
    pub entries: Seq<EntryView>,
    /// The hashes of the most recent selection, in the order selected.
    pub pending_selected: Seq<Seq<u8>>,
    /// One record per connected block, oldest first.
    pub journal: Seq<MempoolUndoView>,
}

/// Whether the hash and the size of an entry are those of its transaction.
pub open spec fn genuine(entry: EntryView) -> bool {
    entry == entry_for(entry.transaction, entry.fee, entry.timestamp)
}

/// Whether every entry that the records hold is genuine.
pub open spec fn journal_genuine(journal: Seq<MempoolUndoView>) -> bool {
    forall|j: int, k: int|
        0 <= j < journal.len() && 0 <= k < journal[j].removed.len() ==> genuine(
            (#[trigger] journal[j].removed[k]).1,
        )
}

/// Whether `entry` can stand at index `at`: its hash is new, the entry
/// before it is not outranked by it, and the entry after it does not
/// outrank it.
pub open spec fn fits_at(entries: Seq<EntryView>, at: int, entry: EntryView) -> bool {
    &&& 0 <= at <= entries.len()
    &&& !contains_hash(entries, entry.hash)
    &&& at > 0 ==> !ranks_before(entry, entries[at - 1])
    &&& at < entries.len() ==> !ranks_before(entries[at], entry)
}

/// The entries with `entry` back among them: at index `at` where it can
/// stand there, else where a new entry goes; unchanged where its hash is
/// among them already.
pub open spec fn put_back(entries: Seq<EntryView>, at: int, entry: EntryView) -> Seq<EntryView> {
    if fits_at(entries, at, entry) {
        entries.insert(at, entry)
    } else if contains_hash(entries, entry.hash) {
        entries
    } else {
        entries.insert(position(entries, entry), entry)
    }
}

/// The entries with those of `removed` back among them, the last removed
/// first.
pub open spec fn restore_all(entries: Seq<EntryView>, removed: Seq<(int, EntryView)>) -> Seq<
    EntryView,
>
    decreases removed.len(),
{
    if removed.len() == 0 {
        entries
    } else {
        restore_all(put_back(entries, removed.last().0, removed.last().1), removed.drop_last())
    }
}

/// What deleting the entries that have one of `hashes`, in order, takes
/// out: each entry with the place it had when it was deleted.
pub open spec fn removal_log(entries: Seq<EntryView>, hashes: Seq<Seq<u8>>) -> Seq<
    (int, EntryView),
>
    decreases hashes.len(),
{
    if hashes.len() == 0 {
        Seq::empty()
    } else {
        let before = without_all(entries, hashes.drop_last());
        let log = removal_log(entries, hashes.drop_last());
        if contains_hash(before, hashes.last()) {
            log.push(
                (
                    index_of_hash(before, hashes.last()),
                    before[index_of_hash(before, hashes.last())],
                ),
            )
        } else {
            log
        }
    }
}

impl MempoolView {
    /// The entries stand in order of priority, no hash occurs twice, and
    /// each entry's hash and size are those of its transaction; so are
    /// those of the entries that the records hold.
    pub open spec fn consistent(self) -> bool {
        &&& journal_genuine(self.journal)
        &&& forall|i: int, j: int|
            0 <= i < j < self.entries.len() ==> !ranks_before(
                #[trigger] self.entries[j],
                #[trigger] self.entries[i],
            )
        &&& forall|i: int, j: int|
            0 <= i < self.entries.len() && 0 <= j < self.entries.len() && i != j ==> (
            #[trigger] self.entries[i]).hash != (#[trigger] self.entries[j]).hash
        &&& forall|i: int|
            0 <= i < self.entries.len() ==> #[trigger] self.entries[i] == entry_for(
                self.entries[i].transaction,
                self.entries[i].fee,
                self.entries[i].timestamp,
            )
    }

    /// The table from a transaction's hash to the transaction, its fee and
    /// the time it was submitted.
    pub open spec fn tx_by_hash(self) -> Map<Seq<u8>, (TransactionView, u64, u64)> {
        Map::new(
            |h: Seq<u8>| contains_hash(self.entries, h),
            |h: Seq<u8>|
                {
                    let e = self.entries[index_of_hash(self.entries, h)];
                    (e.transaction, e.fee, e.timestamp)
                },
        )
    }

    /// The table from a fee to the transactions that pay it: hash, size
    /// and time, ascending by size and then time.
    pub open spec fn by_fee(self, fee: u64) -> Seq<(Seq<u8>, u32, u64)> {
        paying(self.entries, fee)
    }

    /// The pool after `transaction` was submitted with `fee` at
    /// `timestamp`: unchanged where the pool has its hash already.
    pub open spec fn submit(self, transaction: TransactionView, fee: u64, timestamp: u64) -> MempoolView {
        let entry = entry_for(transaction, fee, timestamp);
        if contains_hash(self.entries, entry.hash) {
            self
        } else {
            MempoolView { entries: self.entries.insert(position(self.entries, entry), entry), ..self }
        }
    }

    /// Whether each of `transactions` is in the pool, and none of them twice.
    pub open spec fn connectable(self, transactions: Seq<TransactionView>) -> bool {
        &&& forall|k: int|
            0 <= k < transactions.len() ==> contains_hash(
                self.entries,
                #[trigger] transaction_hashes(transactions)[k],
            )
        &&& forall|a: int, b: int|
            0 <= a < b < transactions.len() ==> #[trigger] transaction_hashes(transactions)[a]
                != #[trigger] transaction_hashes(transactions)[b]
    }

    /// The pool after a block with `transactions` was connected: the
    /// block's transactions are deleted and the selection is cleared, and
    /// a record keeps both.
    pub open spec fn connect(self, transactions: Seq<TransactionView>) -> MempoolView {
        MempoolView {
            entries: without_all(self.entries, transaction_hashes(transactions)),
            pending_selected: Seq::empty(),
            journal: self.journal.push(
                MempoolUndoView {
                    removed: removal_log(self.entries, transaction_hashes(transactions)),
                    pending_selected: self.pending_selected,
                },
            ),
        }
    }

    /// The pool with what its newest connected block took given back.
    pub open spec fn disconnect(self) -> MempoolView {
        MempoolView {
            entries: restore_all(self.entries, self.journal.last().removed),
            pending_selected: self.journal.last().pending_selected,
            journal: self.journal.drop_last(),
        }
    }

    /// Whether each selected hash is that of a transaction in the pool.
    pub open spec fn pending_present(self) -> bool {
        forall|k: int|
            0 <= k < self.pending_selected.len() ==> contains_hash(
                self.entries,
                #[trigger] self.pending_selected[k],
            )
    }
}

/// Deleting an entry keeps the pool consistent.
pub proof fn lemma_remove_consistent(pool: MempoolView, at: int)
    requires
        pool.consistent(),
        0 <= at < pool.entries.len(),
    ensures
        (MempoolView { entries: pool.entries.remove(at), ..pool }).consistent(),
        forall|h: Seq<u8>|
            contains_hash(pool.entries.remove(at), h) <==> (contains_hash(pool.entries, h) && h
                != pool.entries[at].hash),
{
    let after = pool.entries.remove(at);
    let old_index = |k: int| if k < at { k } else { k + 1 };
    assert forall|k: int| 0 <= k < after.len() implies #[trigger] after[k] == pool.entries[old_index(
        k,
    )] by {}
    assert forall|i: int, j: int| 0 <= i < j < after.len() implies !ranks_before(
        #[trigger] after[j],
        #[trigger] after[i],
    ) by {
        assert(!ranks_before(pool.entries[old_index(j)], pool.entries[old_index(i)]));
    }
    assert forall|i: int, j: int|
        0 <= i < after.len() && 0 <= j < after.len() && i != j implies (#[trigger] after[i]).hash != (
    #[trigger] after[j]).hash by {
        assert(pool.entries[old_index(i)].hash != pool.entries[old_index(j)].hash);
    }
    assert forall|i: int| 0 <= i < after.len() implies #[trigger] after[i] == entry_for(
        after[i].transaction,
        after[i].fee,
        after[i].timestamp,
    ) by {
        assert(pool.entries[old_index(i)] == entry_for(
            pool.entries[old_index(i)].transaction,
            pool.entries[old_index(i)].fee,
            pool.entries[old_index(i)].timestamp,
        ));
    }
    assert forall|h: Seq<u8>|
        contains_hash(after, h) <==> (contains_hash(pool.entries, h) && h != pool.entries[at].hash) by {
        if contains_hash(after, h) {
            let k = choose|k: int| 0 <= k < after.len() && (#[trigger] after[k]).hash == h;
            assert(pool.entries[old_index(k)].hash == h);
            assert(pool.entries[old_index(k)].hash != pool.entries[at].hash);
        }
        if contains_hash(pool.entries, h) && h != pool.entries[at].hash {
            let k = choose|k: int|
                0 <= k < pool.entries.len() && (#[trigger] pool.entries[k]).hash == h;
            let k1 = if k < at { k } else { k - 1 };
            assert(after[k1].hash == h);
        }
    }
}

/// Whether a pool is consistent depends on its entries and its records
/// alone.
pub proof fn lemma_consistent_by_entries(a: MempoolView, b: MempoolView)
    requires
        a.consistent(),
        a.entries == b.entries,
        a.journal == b.journal,
    ensures
        b.consistent(),
{
    assert forall|i: int, j: int| 0 <= i < j < b.entries.len() implies !ranks_before(
        #[trigger] b.entries[j],
        #[trigger] b.entries[i],
    ) by {
        assert(!ranks_before(a.entries[j], a.entries[i]));
    }
    assert forall|i: int, j: int|
        0 <= i < b.entries.len() && 0 <= j < b.entries.len() && i != j implies (
    #[trigger] b.entries[i]).hash != (#[trigger] b.entries[j]).hash by {
        assert(a.entries[i].hash != a.entries[j].hash);
    }
    assert forall|i: int| 0 <= i < b.entries.len() implies #[trigger] b.entries[i] == entry_for(
        b.entries[i].transaction,
        b.entries[i].fee,
        b.entries[i].timestamp,
    ) by {
        assert(a.entries[i] == entry_for(
            a.entries[i].transaction,
            a.entries[i].fee,
            a.entries[i].timestamp,
        ));
    }
}

/// An entry that is put where it can stand keeps the pool consistent.
pub proof fn lemma_insert_consistent(pool: MempoolView, at: int, entry: EntryView)
    requires
        pool.consistent(),
        genuine(entry),
        fits_at(pool.entries, at, entry),
    ensures
        (MempoolView { entries: pool.entries.insert(at, entry), ..pool }).consistent(),
{
    let after = pool.entries.insert(at, entry);
    let old_index = |k: int| if k < at { k } else { k - 1 };
    assert forall|k: int| 0 <= k < after.len() && k != at implies #[trigger] after[k]
        == pool.entries[old_index(k)] by {}
    assert(after[at] == entry);
    assert forall|i: int, j: int| 0 <= i < j < after.len() implies !ranks_before(
        #[trigger] after[j],
        #[trigger] after[i],
    ) by {
        if i == at {
            assert(!ranks_before(pool.entries[at], entry));
            if j - 1 > at {
                assert(!ranks_before(pool.entries[j - 1], pool.entries[at]));
            }
        } else if j == at {
            assert(!ranks_before(entry, pool.entries[at - 1]));
            if i < at - 1 {
                assert(!ranks_before(pool.entries[at - 1], pool.entries[i]));
            }
        } else {
            assert(!ranks_before(pool.entries[old_index(j)], pool.entries[old_index(i)]));
        }
    }
    assert forall|i: int, j: int|
        0 <= i < after.len() && 0 <= j < after.len() && i != j implies (#[trigger] after[i]).hash != (
    #[trigger] after[j]).hash by {
        if i == at {
            assert(pool.entries[old_index(j)].hash != entry.hash);
        } else if j == at {
            assert(pool.entries[old_index(i)].hash != entry.hash);
        } else {
            assert(pool.entries[old_index(i)].hash != pool.entries[old_index(j)].hash);
        }
    }
    assert forall|i: int| 0 <= i < after.len() implies #[trigger] after[i] == entry_for(
        after[i].transaction,
        after[i].fee,
        after[i].timestamp,
    ) by {
        if i != at {
            assert(pool.entries[old_index(i)] == entry_for(
                pool.entries[old_index(i)].transaction,
                pool.entries[old_index(i)].fee,
                pool.entries[old_index(i)].timestamp,
            ));
        }
    }
}

/// An entry that is put back keeps the pool consistent.
pub proof fn lemma_put_back_consistent(pool: MempoolView, at: int, entry: EntryView)
    requires
        pool.consistent(),
        genuine(entry),
    ensures
        (MempoolView { entries: put_back(pool.entries, at, entry), ..pool }).consistent(),
{
    if fits_at(pool.entries, at, entry) {
        lemma_insert_consistent(pool, at, entry);
    } else if contains_hash(pool.entries, entry.hash) {
        lemma_consistent_by_entries(pool, MempoolView { entries: pool.entries, ..pool });
    } else {
        lemma_position(pool.entries, entry);
        lemma_insert_consistent(pool, position(pool.entries, entry), entry);
    }
}

/// Entries that are put back keep the pool consistent.
pub proof fn lemma_restore_all_consistent(pool: MempoolView, removed: Seq<(int, EntryView)>)
    requires
        pool.consistent(),
        forall|k: int| 0 <= k < removed.len() ==> genuine((#[trigger] removed[k]).1),
    ensures
        (MempoolView { entries: restore_all(pool.entries, removed), ..pool }).consistent(),
    decreases removed.len(),
{
    if removed.len() == 0 {
        lemma_consistent_by_entries(pool, MempoolView { entries: pool.entries, ..pool });
    } else {
        assert(genuine(removed[removed.len() - 1].1));
        lemma_put_back_consistent(pool, removed.last().0, removed.last().1);
        let next = MempoolView {
            entries: put_back(pool.entries, removed.last().0, removed.last().1),
            ..pool
        };
        assert forall|k: int| 0 <= k < removed.drop_last().len() implies genuine(
            (#[trigger] removed.drop_last()[k]).1,
        ) by {
            assert(genuine(removed[k].1));
        }
        lemma_restore_all_consistent(next, removed.drop_last());
    }
}

/// What deleting takes out is genuine, and putting it back gives the
/// entries as they were.
pub proof fn lemma_removal_log(pool: MempoolView, hashes: Seq<Seq<u8>>)
    requires
        pool.consistent(),
    ensures
        forall|k: int|
            0 <= k < removal_log(pool.entries, hashes).len() ==> genuine(
                (#[trigger] removal_log(pool.entries, hashes)[k]).1,
            ),
        restore_all(without_all(pool.entries, hashes), removal_log(pool.entries, hashes))
            == pool.entries,
    decreases hashes.len(),
{
    if hashes.len() > 0 {
        lemma_removal_log(pool, hashes.drop_last());
        lemma_without_all_consistent(pool, hashes.drop_last());
        let before = without_all(pool.entries, hashes.drop_last());
        let log = removal_log(pool.entries, hashes.drop_last());
        let hash = hashes.last();
        if contains_hash(before, hash) {
            let at = index_of_hash(before, hash);
            assert(0 <= at < before.len() && before[at].hash == hash);
            let entry = before[at];
            let after = before.remove(at);
            let whole = log.push((at, entry));
            assert(whole.drop_last() =~= log);
            let kept = MempoolView { entries: before, ..pool };
            assert(kept.entries[at] == entry_for(
                kept.entries[at].transaction,
                kept.entries[at].fee,
                kept.entries[at].timestamp,
            ));
            assert(genuine(entry));
            assert forall|k: int| 0 <= k < whole.len() implies genuine((#[trigger] whole[k]).1) by {
                if k < log.len() {
                    assert(genuine(log[k].1));
                }
            }
            lemma_remove_consistent(MempoolView { entries: before, ..pool }, at);
            assert(!contains_hash(after, entry.hash));
            assert(fits_at(after, at, entry)) by {
                if at > 0 {
                    assert(after[at - 1] == before[at - 1]);
                    assert(!ranks_before(before[at], before[at - 1]));
                }
                if at < after.len() {
                    assert(after[at] == before[at + 1]);
                    assert(!ranks_before(before[at + 1], before[at]));
                }
            }
            assert(after.insert(at, entry) =~= before);
        }
    }
}

/// A connected block leaves the pool consistent.
pub proof fn lemma_connect_consistent(pool: MempoolView, transactions: Seq<TransactionView>)
    requires
        pool.consistent(),
    ensures
        pool.connect(transactions).consistent(),
{
    let hashes = transaction_hashes(transactions);
    let after = pool.connect(transactions);
    lemma_without_all_consistent(pool, hashes);
    lemma_removal_log(pool, hashes);
    assert forall|j: int, k: int|
        0 <= j < after.journal.len() && 0 <= k < after.journal[j].removed.len() implies genuine(
        (#[trigger] after.journal[j].removed[k]).1,
    ) by {
        if j < pool.journal.len() {
            assert(genuine(pool.journal[j].removed[k].1));
        } else {
            assert(genuine(removal_log(pool.entries, hashes)[k].1));
        }
    }
    let kept = MempoolView { entries: without_all(pool.entries, hashes), ..pool };
    lemma_consistent_by_entries(kept, MempoolView { journal: pool.journal, ..after });
}

/// Giving back what the newest connected block took leaves the pool
/// consistent.
pub proof fn lemma_disconnect_consistent(pool: MempoolView)
    requires
        pool.consistent(),
        pool.journal.len() > 0,
    ensures
        pool.disconnect().consistent(),
{
    let record = pool.journal.last();
    let after = pool.disconnect();
    assert forall|k: int| 0 <= k < record.removed.len() implies genuine(
        (#[trigger] record.removed[k]).1,
    ) by {
        assert(genuine(pool.journal[pool.journal.len() - 1].removed[k].1));
    }
    lemma_restore_all_consistent(pool, record.removed);
    assert forall|j: int, k: int|
        0 <= j < after.journal.len() && 0 <= k < after.journal[j].removed.len() implies genuine(
        (#[trigger] after.journal[j].removed[k]).1,
    ) by {
        assert(genuine(pool.journal[j].removed[k].1));
    }
    let restored = MempoolView { entries: restore_all(pool.entries, record.removed), ..pool };
    let longer = MempoolView { journal: pool.journal, ..after };
    lemma_consistent_by_entries(restored, longer);
    lemma_shorter_journal_consistent(longer, after);
}

/// Connecting a block and then giving back what it took gives the pool as
/// it was: its entries, its selection and its records.
pub proof fn lemma_connect_then_disconnect(pool: MempoolView, transactions: Seq<TransactionView>)
    requires
        pool.consistent(),
    ensures
        pool.connect(transactions).journal.len() > 0,
        pool.connect(transactions).disconnect() == pool,
{
    lemma_removal_log(pool, transaction_hashes(transactions));
    let after = pool.connect(transactions);
    assert(after.journal.drop_last() =~= pool.journal);
}

/// A pool stays consistent where only its records change, to genuine ones.
pub proof fn lemma_shorter_journal_consistent(a: MempoolView, b: MempoolView)
    requires
        a.consistent(),
        a.entries == b.entries,
        journal_genuine(b.journal),
    ensures
        b.consistent(),
{
    lemma_consistent_by_entries(a, MempoolView { journal: a.journal, ..b });
}

/// Deleting entries keeps the pool consistent.
pub proof fn lemma_without_all_consistent(pool: MempoolView, hashes: Seq<Seq<u8>>)
    requires
        pool.consistent(),
    ensures
        (MempoolView { entries: without_all(pool.entries, hashes), ..pool }).consistent(),
    decreases hashes.len(),
{
    if hashes.len() > 0 {
        lemma_without_all_consistent(pool, hashes.drop_last());
        let before = MempoolView { entries: without_all(pool.entries, hashes.drop_last()), ..pool };
        if contains_hash(before.entries, hashes.last()) {
            let at = index_of_hash(before.entries, hashes.last());
            lemma_remove_consistent(before, at);
        }
    }
}

/// After the first `k` of a list of different hashes were deleted, the
/// pool is consistent and holds of the others what it held before.
pub proof fn lemma_without_all_keeps(pool: MempoolView, hashes: Seq<Seq<u8>>, k: int, hash: Seq<u8>)
    requires
        pool.consistent(),
        0 <= k <= hashes.len(),
        forall|a: int| 0 <= a < k ==> #[trigger] hashes[a] != hash,
    ensures
        (MempoolView { entries: without_all(pool.entries, hashes.take(k)), ..pool }).consistent(),
        contains_hash(without_all(pool.entries, hashes.take(k)), hash) == contains_hash(
            pool.entries,
            hash,
        ),
    decreases k,
{
    if k > 0 {
        lemma_without_all_keeps(pool, hashes, k - 1, hash);
        assert(hashes.take(k).drop_last() =~= hashes.take(k - 1));
        assert(hashes.take(k).last() == hashes[k - 1]);
        let before = MempoolView { entries: without_all(pool.entries, hashes.take(k - 1)), ..pool };
        if contains_hash(before.entries, hashes[k - 1]) {
            let at = index_of_hash(before.entries, hashes[k - 1]);
            lemma_remove_consistent(before, at);
        }
    } else {
        assert(hashes.take(0) =~= Seq::<Seq<u8>>::empty());
    }
}

/// Where a new entry goes, all entries before it are not outranked by it,
/// and the entry that follows it is.
pub proof fn lemma_position(entries: Seq<EntryView>, entry: EntryView)
    ensures
        0 <= position(entries, entry) <= entries.len(),
        forall|k: int|
            0 <= k < position(entries, entry) ==> !ranks_before(entry, #[trigger] entries[k]),
        position(entries, entry) < entries.len() ==> ranks_before(
            entry,
            entries[position(entries, entry)],
        ),
    decreases entries.len(),
{
    if entries.len() == 0 || ranks_before(entry, entries.first()) {
    } else {
        lemma_position(entries.drop_first(), entry);
        let rest = position(entries.drop_first(), entry);
        assert forall|k: int| 0 <= k < 1 + rest implies !ranks_before(entry, #[trigger] entries[k]) by {
            if k > 0 {
                assert(entries[k] == entries.drop_first()[k - 1]);
            }
        }
        if 1 + rest < entries.len() {
            assert(entries[1 + rest] == entries.drop_first()[rest]);
        }
    }
}

/// Submitting a transaction keeps the pool consistent.
pub proof fn lemma_submit_consistent(
    pool: MempoolView,
    transaction: TransactionView,
    fee: u64,
    timestamp: u64,
)
    requires
        pool.consistent(),
    ensures
        pool.submit(transaction, fee, timestamp).consistent(),
        contains_hash(
            pool.submit(transaction, fee, timestamp).entries,
            transaction_hash(transaction),
        ),
{
    let entry = entry_for(transaction, fee, timestamp);
    let after = pool.submit(transaction, fee, timestamp);
    if !contains_hash(pool.entries, entry.hash) {
        lemma_position(pool.entries, entry);
        let at = position(pool.entries, entry);
        let old_index = |k: int| if k < at { k } else { k - 1 };
        assert forall|k: int| 0 <= k < after.entries.len() && k != at implies #[trigger] after.entries[k]
            == pool.entries[old_index(k)] by {}
        assert(after.entries[at] == entry);
        assert forall|i: int, j: int| 0 <= i < j < after.entries.len() implies !ranks_before(
            #[trigger] after.entries[j],
            #[trigger] after.entries[i],
        ) by {
            if i == at {
                assert(ranks_before(entry, pool.entries[at]));
                if j - 1 > at {
                    assert(!ranks_before(pool.entries[j - 1], pool.entries[at]));
                }
            } else if j == at {
                assert(!ranks_before(entry, pool.entries[i]));
            } else {
                assert(!ranks_before(pool.entries[old_index(j)], pool.entries[old_index(i)]));
            }
        }
        assert forall|i: int, j: int|
            0 <= i < after.entries.len() && 0 <= j < after.entries.len() && i != j implies (
        #[trigger] after.entries[i]).hash != (#[trigger] after.entries[j]).hash by {
            if i == at {
                assert(pool.entries[old_index(j)].hash != entry.hash);
            } else if j == at {
                assert(pool.entries[old_index(i)].hash != entry.hash);
            } else {
                assert(pool.entries[old_index(i)].hash != pool.entries[old_index(j)].hash);
            }
        }
        assert forall|i: int| 0 <= i < after.entries.len() implies #[trigger] after.entries[i]
            == entry_for(
            after.entries[i].transaction,
            after.entries[i].fee,
            after.entries[i].timestamp,
        ) by {
            if i != at {
                assert(pool.entries[old_index(i)] == entry_for(
                    pool.entries[old_index(i)].transaction,
                    pool.entries[old_index(i)].fee,
                    pool.entries[old_index(i)].timestamp,
                ));
            }
        }
        assert(after.entries[at].hash == entry.hash);
    }
}

/// Submitting a transaction a second time changes nothing, whatever fee
/// and time the second submission carries.
pub proof fn lemma_submit_twice(
    pool: MempoolView,
    transaction: TransactionView,
    fee: u64,
    timestamp: u64,
    fee_again: u64,
    timestamp_again: u64,
)
    requires
        pool.consistent(),
    ensures
        pool.submit(transaction, fee, timestamp).submit(transaction, fee_again, timestamp_again)
            == pool.submit(transaction, fee, timestamp),
{
    lemma_submit_consistent(pool, transaction, fee, timestamp);
}

/// The entries without those that have one of `hashes`.
pub open spec fn without_all(entries: Seq<EntryView>, hashes: Seq<Seq<u8>>) -> Seq<EntryView>
    decreases hashes.len(),
{
    if hashes.len() == 0 {
        entries
    } else {
        without(without_all(entries, hashes.drop_last()), hashes.last())
    }
}

/// The hash of each transaction, in order.
pub open spec fn transaction_hashes(transactions: Seq<TransactionView>) -> Seq<Seq<u8>> {
    transactions.map_values(|t: TransactionView| transaction_hash(t))
}

/// Whether one of `inputs` is in `spent`.
pub open spec fn spends_from(inputs: Seq<OutPoint>, spent: Set<OutPoint>) -> bool {
    exists|i: int| 0 <= i < inputs.len() && spent.contains(#[trigger] inputs[i])
}

/// Whether two transactions spend a common outpoint.
pub open spec fn conflict(a: TransactionView, b: TransactionView) -> bool {
    exists|i: int, j: int|
        0 <= i < a.inputs.len() && 0 <= j < b.inputs.len() && #[trigger] a.inputs[i]
            == #[trigger] b.inputs[j]
}

/// A selection under way.
pub struct Packing {
    /// The indices of the entries selected, in the order selected.
    pub selected: Seq<int>,
    /// The outpoints that the selected transactions spend.
    pub spent: Set<OutPoint>,
    /// The serialized size of the selected transactions as a list.
    pub size: nat,
    /// The fee whose entries are passed over since one of them did not fit.
    pub stopped_fee: Option<u64>,
}

/// The size of an empty list of transactions: its length prefix.
pub open spec fn empty_list_size() -> nat {
    8
}

/// Whether the entry at index `i` is taken when its turn comes: no entry
/// of its fee failed to fit before it, it spends nothing that the
/// selection spends already, and with it the selection stays within the
/// block size limit.
pub open spec fn eligible(entries: Seq<EntryView>, i: int) -> bool {
    let before = pack(entries, i);
    &&& before.stopped_fee != Some(entries[i].fee)
    &&& !spends_from(entries[i].transaction.inputs, before.spent)
    &&& before.size + entries[i].size <= BLOCK_SIZE_LIMIT
}

/// The selection after the first `n` entries had their turn, in order of
/// priority. An entry that conflicts with the selection is passed over;
/// one that does not fit ends the turns of the entries of its fee.
pub open spec fn pack(entries: Seq<EntryView>, n: int) -> Packing
    decreases n,
{
    if n <= 0 {
        Packing {
            selected: Seq::empty(),
            spent: Set::empty(),
            size: empty_list_size(),
            stopped_fee: None,
        }
    } else {
        let before = pack(entries, n - 1);
        let entry = entries[n - 1];
        if before.stopped_fee == Some(entry.fee) {
            before
        } else if spends_from(entry.transaction.inputs, before.spent) {
            before
        } else if before.size + entry.size > BLOCK_SIZE_LIMIT {
            Packing { stopped_fee: Some(entry.fee), ..before }
        } else {
            Packing {
                selected: before.selected.push(n - 1),
                spent: before.spent + entry.transaction.inputs.to_set(),
                size: before.size + entry.size as nat,
                stopped_fee: before.stopped_fee,
            }
        }
    }
}

/// The indices of the entries that a selection over the whole pool takes.
pub open spec fn selection(entries: Seq<EntryView>) -> Seq<int> {
    pack(entries, entries.len() as int).selected
}

/// The hashes of the entries at `indices`.
pub open spec fn hashes_at(entries: Seq<EntryView>, indices: Seq<int>) -> Seq<Seq<u8>> {
    Seq::new(indices.len(), |k: int| entries[indices[k]].hash)
}

/// The transactions of the entries that have the hashes of `pending`.
pub open spec fn pending_transactions(entries: Seq<EntryView>, pending: Seq<Seq<u8>>) -> Seq<
    TransactionView,
> {
    Seq::new(pending.len(), |k: int| entries[index_of_hash(entries, pending[k])].transaction)
}

/// What holds of a selection at every turn: the indices selected rise and
/// are below the turn, the selection spends what its transactions spend,
/// no two of its transactions spend a common outpoint, and it is within
/// the block size limit.
pub proof fn lemma_pack(entries: Seq<EntryView>, n: int)
    requires
        0 <= n <= entries.len(),
    ensures
        forall|a: int|
            0 <= a < pack(entries, n).selected.len() ==> 0 <= #[trigger] pack(
                entries,
                n,
            ).selected[a] < n,
        forall|a: int, b: int|
            0 <= a < b < pack(entries, n).selected.len() ==> pack(entries, n).selected[a] < pack(
                entries,
                n,
            ).selected[b],
        forall|a: int, i: int|
            0 <= a < pack(entries, n).selected.len() && 0 <= i < entries[pack(
                entries,
                n,
            ).selected[a]].transaction.inputs.len() ==> pack(entries, n).spent.contains(
                #[trigger] entries[pack(entries, n).selected[a]].transaction.inputs[i],
            ),
        forall|a: int, b: int|
            0 <= a < b < pack(entries, n).selected.len() ==> !conflict(
                entries[#[trigger] pack(entries, n).selected[a]].transaction,
                entries[#[trigger] pack(entries, n).selected[b]].transaction,
            ),
        pack(entries, n).size <= BLOCK_SIZE_LIMIT,
    decreases n,
{
    if n > 0 {
        lemma_pack(entries, n - 1);
        let before = pack(entries, n - 1);
        let after = pack(entries, n);
        let entry = entries[n - 1];
        if after.selected.len() != before.selected.len() {
            assert(after.selected == before.selected.push(n - 1));
            assert forall|a: int, i: int|
                0 <= a < after.selected.len() && 0 <= i < entries[after.selected[a]].transaction.inputs.len() implies after.spent.contains(
                #[trigger] entries[after.selected[a]].transaction.inputs[i],
            ) by {
                if a < before.selected.len() {
                    assert(before.spent.contains(
                        entries[before.selected[a]].transaction.inputs[i],
                    ));
                } else {
                    assert(entry.transaction.inputs.to_set().contains(entry.transaction.inputs[i]));
                }
            }
            assert forall|a: int, b: int| 0 <= a < b < after.selected.len() implies !conflict(
                entries[#[trigger] after.selected[a]].transaction,
                entries[#[trigger] after.selected[b]].transaction,
            ) by {
                if b < before.selected.len() {
                    assert(!conflict(
                        entries[before.selected[a]].transaction,
                        entries[before.selected[b]].transaction,
                    ));
                } else {
                    let earlier = entries[before.selected[a]].transaction;
                    if conflict(earlier, entry.transaction) {
                        let (i, j) = choose|i: int, j: int|
                            0 <= i < earlier.inputs.len() && 0 <= j < entry.transaction.inputs.len()
                                && #[trigger] earlier.inputs[i]
                                == #[trigger] entry.transaction.inputs[j];
                        assert(before.spent.contains(
                            entries[before.selected[a]].transaction.inputs[i],
                        ));
                        assert(before.spent.contains(entry.transaction.inputs[j]));
                    }
                }
            }
        }
    }
}

/// What was selected by turn `n` stays selected, at the same place.
pub proof fn lemma_pack_grows(entries: Seq<EntryView>, n: int, m: int)
    requires
        0 <= n <= m <= entries.len(),
    ensures
        pack(entries, n).selected.len() <= pack(entries, m).selected.len(),
        forall|a: int|
            0 <= a < pack(entries, n).selected.len() ==> #[trigger] pack(entries, m).selected[a]
                == pack(entries, n).selected[a],
    decreases m - n,
{
    if n < m {
        lemma_pack_grows(entries, n, m - 1);
    }
}

/// No transaction is selected twice, and no two selected transactions
/// spend a common outpoint.
pub proof fn lemma_selection_conflict_free(pool: MempoolView, a: int, b: int)
    requires
        pool.consistent(),
        0 <= a < selection(pool.entries).len(),
        0 <= b < selection(pool.entries).len(),
        a != b,
    ensures
        selection(pool.entries)[a] != selection(pool.entries)[b],
        hashes_at(pool.entries, selection(pool.entries))[a] != hashes_at(
            pool.entries,
            selection(pool.entries),
        )[b],
        !conflict(
            pool.entries[selection(pool.entries)[a]].transaction,
            pool.entries[selection(pool.entries)[b]].transaction,
        ),
{
    let entries = pool.entries;
    lemma_pack(entries, entries.len() as int);
    let chosen = selection(entries);
    if a < b {
        assert(chosen[a] < chosen[b]);
        assert(!conflict(entries[chosen[a]].transaction, entries[chosen[b]].transaction));
    } else {
        assert(chosen[b] < chosen[a]);
        let x = entries[chosen[a]].transaction;
        let y = entries[chosen[b]].transaction;
        assert(!conflict(y, x));
        if conflict(x, y) {
            let (i, j) = choose|i: int, j: int|
                0 <= i < x.inputs.len() && 0 <= j < y.inputs.len() && #[trigger] x.inputs[i]
                    == #[trigger] y.inputs[j];
            assert(y.inputs[j] == x.inputs[i]);
        }
    }
    assert(entries[chosen[a]].hash != entries[chosen[b]].hash);
}

/// Of two conflicting transactions the one with priority has its turn
/// first; the two are never selected together; and where the one with
/// priority is eligible at its turn, it is selected and the other is not.
pub proof fn lemma_priority_decides(pool: MempoolView, i: int, j: int)
    requires
        pool.consistent(),
        0 <= i < pool.entries.len(),
        0 <= j < pool.entries.len(),
        ranks_before(pool.entries[i], pool.entries[j]),
        conflict(pool.entries[i].transaction, pool.entries[j].transaction),
    ensures
        i < j,
        !(selection(pool.entries).contains(i) && selection(pool.entries).contains(j)),
        eligible(pool.entries, i) ==> selection(pool.entries).contains(i) && !selection(
            pool.entries,
        ).contains(j),
{
    let entries = pool.entries;
    let chosen = selection(entries);
    if j < i {
        assert(!ranks_before(entries[i], entries[j]));
    }
    if chosen.contains(i) && chosen.contains(j) {
        let a = choose|a: int| 0 <= a < chosen.len() && chosen[a] == i;
        let b = choose|b: int| 0 <= b < chosen.len() && chosen[b] == j;
        lemma_selection_conflict_free(pool, a, b);
    }
    if eligible(entries, i) {
        let at = pack(entries, i + 1).selected;
        assert(at == pack(entries, i).selected.push(i));
        lemma_pack_grows(entries, i + 1, entries.len() as int);
        assert(chosen[at.len() - 1] == at[at.len() - 1]);
    }
}

/// What is needed to give back to the pool what one connected block took.
pub struct MempoolUndo {
    removed: Vec<(usize, MempoolEntry)>,
    pending_selected: Vec<[u8; HASH_LENGTH]>,
}

/// The removed entries of a list, each with its place, as mathematical values.
pub open spec fn removed_views(removed: Seq<(usize, MempoolEntry)>) -> Seq<(int, EntryView)> {
    removed.map_values(|r: (usize, MempoolEntry)| (r.0 as int, r.1@))
}

impl View for MempoolUndo {
    type V = MempoolUndoView;

    closed spec fn view(&self) -> MempoolUndoView {
        MempoolUndoView {
            removed: removed_views(self.removed@),
            pending_selected: hash_views(self.pending_selected@),
        }
    }
}

pub struct Mempool {
    entries: Vec<MempoolEntry>,
    pending_selected: Vec<[u8; HASH_LENGTH]>,
    journal: Vec<MempoolUndo>,
}

/// The entries of a list, each as a mathematical value.
pub open spec fn entry_views(entries: Seq<MempoolEntry>) -> Seq<EntryView> {
    entries.map_values(|e: MempoolEntry| e@)
}

/// The hashes of a list, each as a sequence of bytes.
pub open spec fn hash_views(hashes: Seq<[u8; HASH_LENGTH]>) -> Seq<Seq<u8>> {
    hashes.map_values(|h: [u8; HASH_LENGTH]| h@)
}

impl View for Mempool {
    type V = MempoolView;

    closed spec fn view(&self) -> MempoolView {
        MempoolView {
            entries: entry_views(self.entries@),
            pending_selected: hash_views(self.pending_selected@),
            journal: self.journal@.map_values(|u: MempoolUndo| u@),
        }
    }
}

impl Mempool {
    pub closed spec fn wf(&self) -> bool {
        self@.consistent()
    }

    /// In a well-formed pool the tables are consistent.
    pub proof fn lemma_wf_consistent(&self)
        requires
            self.wf(),
        ensures
            self@.consistent(),
    {
    }

    /// An empty pool.
    pub fn new() -> (r: Mempool)
        ensures
            r.wf(),
            r@ == (MempoolView {
                entries: Seq::empty(),
                pending_selected: Seq::empty(),
                journal: Seq::empty(),
            }),
    {
        let r = Mempool { entries: Vec::new(), pending_selected: Vec::new(), journal: Vec::new() };
        proof {
            assert(r@.entries =~= Seq::<EntryView>::empty());
            assert(r@.pending_selected =~= Seq::<Seq<u8>>::empty());
            assert(r@.journal =~= Seq::<MempoolUndoView>::empty());
        }
        r
    }

    fn find(&self, hash: &[u8; HASH_LENGTH]) -> (r: Option<usize>)
        ensures
            match r {
                Some(i) => i < self@.entries.len() && self@.entries[i as int].hash == hash@,
                None => !contains_hash(self@.entries, hash@),
            },
    {
        let mut i: usize = 0;
        while i < self.entries.len()
            invariant
                i <= self.entries@.len(),
                forall|k: int| 0 <= k < i ==> (#[trigger] self@.entries[k]).hash != hash@,
            decreases self.entries.len() - i,
        {
            if bytes_equal(&self.entries[i].hash, hash) {
                return Some(i);
            }
            i += 1;
        }
        None
    }

    /// The number of pending transactions.
    pub fn len(&self) -> (r: usize)
        ensures
            r == self@.entries.len(),
    {
        self.entries.len()
    }

    /// Whether a transaction with `hash` is pending.
    pub fn contains(&self, transaction_hash: &[u8; HASH_LENGTH]) -> (r: bool)
        ensures
            r == contains_hash(self@.entries, transaction_hash@),
    {
        self.find(transaction_hash).is_some()
    }

    /// The transaction with `hash`, its fee and the time it was submitted.
    pub fn get_transaction(&self, transaction_hash: &[u8; HASH_LENGTH]) -> (r: Option<
        (Transaction, u64, u64),
    >)
        requires
            self.wf(),
        ensures
            match r {
                Some((transaction, fee, timestamp)) => self@.tx_by_hash().contains_key(
                    transaction_hash@,
                ) && self@.tx_by_hash()[transaction_hash@] == (transaction@, fee, timestamp),
                None => !self@.tx_by_hash().contains_key(transaction_hash@),
            },
    {
        match self.find(transaction_hash) {
            Some(at) => {
                proof {
                    let hash = transaction_hash@;
                    let chosen = index_of_hash(self@.entries, hash);
                    assert(self@.entries[at as int].hash == hash);
                    assert(0 <= chosen < self@.entries.len() && self@.entries[chosen].hash == hash);
                    assert(chosen == at);
                }
                Some(
                    (
                        self.entries[at].transaction.duplicate(),
                        self.entries[at].fee,
                        self.entries[at].timestamp,
                    ),
                )
            },
            None => None,
        }
    }

    /// The hashes of the pending transactions, the one with the highest
    /// priority first, each with its fee, its size and the time it was
    /// submitted.
    pub fn get_entries(&self) -> (r: Vec<([u8; HASH_LENGTH], u64, u32, u64)>)
        ensures
            r@.len() == self@.entries.len(),
            forall|i: int|
                0 <= i < r@.len() ==> (#[trigger] r@[i]).0@ == self@.entries[i].hash && r@[i].1
                    == self@.entries[i].fee && r@[i].2 == self@.entries[i].size && r@[i].3
                    == self@.entries[i].timestamp,
    {
        let mut list: Vec<([u8; HASH_LENGTH], u64, u32, u64)> = Vec::new();
        let mut i: usize = 0;
        while i < self.entries.len()
            invariant
                i <= self.entries@.len(),
                list@.len() == i,
                forall|k: int|
                    0 <= k < i ==> (#[trigger] list@[k]).0@ == self@.entries[k].hash && list@[k].1
                        == self@.entries[k].fee && list@[k].2 == self@.entries[k].size
                        && list@[k].3 == self@.entries[k].timestamp,
            decreases self.entries.len() - i,
        {
            let entry = &self.entries[i];
            assert(entry@ == self@.entries[i as int]);
            list.push((entry.hash, entry.fee, entry.size, entry.timestamp));
            i += 1;
        }
        list
    }

    /// The transactions that pay `fee`, the smallest and oldest first:
    /// hash, size and time of each.
    pub fn get_by_fee(&self, fee: u64) -> (r: Vec<([u8; HASH_LENGTH], u32, u64)>)
        ensures
            r@.len() == self@.by_fee(fee).len(),
            forall|i: int|
                0 <= i < r@.len() ==> (#[trigger] r@[i]).0@ == self@.by_fee(fee)[i].0 && r@[i].1
                    == self@.by_fee(fee)[i].1 && r@[i].2 == self@.by_fee(fee)[i].2,
    {
        let ghost entries = self@.entries;
        let mut list: Vec<([u8; HASH_LENGTH], u32, u64)> = Vec::new();
        let mut i: usize = 0;
        proof {
            assert(entries.take(0) =~= Seq::<EntryView>::empty());
        }
        while i < self.entries.len()
            invariant
                i <= self.entries@.len(),
                entries == self@.entries,
                list@.len() == paying(entries.take(i as int), fee).len(),
                forall|k: int|
                    0 <= k < list@.len() ==> (#[trigger] list@[k]).0@ == paying(
                        entries.take(i as int),
                        fee,
                    )[k].0 && list@[k].1 == paying(entries.take(i as int), fee)[k].1 && list@[k].2
                        == paying(entries.take(i as int), fee)[k].2,
            decreases self.entries.len() - i,
        {
            let entry = &self.entries[i];
            proof {
                assert(entry@ == entries[i as int]);
                assert(entries.take(i + 1).drop_last() =~= entries.take(i as int));
                assert(entries.take(i + 1).last() == entries[i as int]);
            }
            if entry.fee == fee {
                list.push((entry.hash, entry.size, entry.timestamp));
            }
            i += 1;
        }
        proof {
            assert(entries.take(i as int) =~= entries);
        }
        list
    }

    /// The hashes of the most recent selection, in the order selected.
    pub fn get_pending_hashes(&self) -> (r: Vec<[u8; HASH_LENGTH]>)
        ensures
            hash_views(r@) == self@.pending_selected,
    {
        let mut list: Vec<[u8; HASH_LENGTH]> = Vec::new();
        let mut i: usize = 0;
        while i < self.pending_selected.len()
            invariant
                i <= self.pending_selected@.len(),
                hash_views(list@) == self@.pending_selected.take(i as int),
            decreases self.pending_selected.len() - i,
        {
            let ghost before = list@;
            list.push(self.pending_selected[i]);
            proof {
                assert(hash_views(list@) =~= hash_views(before).push(
                    self.pending_selected@[i as int]@,
                ));
                assert(self@.pending_selected.take(i + 1) =~= self@.pending_selected.take(
                    i as int,
                ).push(self@.pending_selected[i as int]));
            }
            i += 1;
        }
        proof {
            assert(self@.pending_selected.take(i as int) =~= self@.pending_selected);
        }
        list
    }

    /// Adds `transaction`, submitted with `fee` at `timestamp`, unless the
    /// pool has a transaction with its hash already.
    pub fn submit_transaction_at(&mut self, transaction: &Transaction, fee: u64, timestamp: u64)
        requires
            old(self).wf(),
        ensures
            final(self).wf(),
            final(self)@ == old(self)@.submit(transaction@, fee, timestamp),
    {
        let transaction_bytes = serialize_transaction(transaction);
        let transaction_size = transaction_bytes.len();
        let transaction_hash = blake3_hash(transaction_bytes.as_slice());
        if self.find(&transaction_hash).is_some() {
            return ;
        }
        let size: u32 = if transaction_size <= u32::MAX as usize {
            transaction_size as u32
        } else {
            u32::MAX
        };
        let entry = MempoolEntry {
            hash: transaction_hash,
            transaction: transaction.duplicate(),
            fee,
            size,
            timestamp,
        };
        assert(entry@ == entry_for(transaction@, fee, timestamp));
        let ghost entries = self@.entries;
        let at = self.place_of(&entry);
        proof {
            lemma_submit_consistent(old(self)@, transaction@, fee, timestamp);
        }
        self.entries.insert(at, entry);
        proof {
            assert(self@.entries =~= entries.insert(at as int, entry@));
        }
    }

    /// Where a new entry goes.
    fn place_of(&self, entry: &MempoolEntry) -> (at: usize)
        ensures
            at == position(self@.entries, entry@),
            at <= self@.entries.len(),
    {
        let ghost entries = self@.entries;
        let mut at: usize = 0;
        proof {
            assert(entries.skip(0) =~= entries);
        }
        while at < self.entries.len() && !outranks(entry, &self.entries[at])
            invariant
                at <= self.entries@.len(),
                entries == self@.entries,
                position(entries, entry@) == at + position(entries.skip(at as int), entry@),
            decreases self.entries.len() - at,
        {
            proof {
                assert(entries.skip(at as int).first() == entries[at as int]);
                assert(entries.skip(at as int).drop_first() =~= entries.skip(at + 1));
            }
            at += 1;
        }
        proof {
            if at < entries.len() {
                assert(entries.skip(at as int).first() == entries[at as int]);
            }
        }
        at
    }

    /// Puts an entry that a block removed back: at the place it had, where
    /// it can stand there, else where a new entry goes; not at all where
    /// the pool has its hash already.
    fn put_back(&mut self, at: usize, entry: MempoolEntry)
        requires
            old(self).wf(),
            genuine(entry@),
        ensures
            final(self).wf(),
            final(self)@ == (MempoolView {
                entries: put_back(old(self)@.entries, at as int, entry@),
                ..old(self)@
            }),
    {
        proof {
            lemma_put_back_consistent(old(self)@, at as int, entry@);
        }
        if self.find(&entry.hash).is_some() {
            return ;
        }
        let count = self.entries.len();
        let mut fits = at <= count;
        if fits && at > 0 {
            assert(self@.entries[at - 1] == self.entries@[at - 1]@);
            if outranks(&entry, &self.entries[at - 1]) {
                fits = false;
            }
        }
        if fits && at < count {
            assert(self@.entries[at as int] == self.entries@[at as int]@);
            if outranks(&self.entries[at], &entry) {
                fits = false;
            }
        }
        let place = if fits {
            at
        } else {
            self.place_of(&entry)
        };
        let ghost entries = self@.entries;
        let ghost view = entry@;
        self.entries.insert(place, entry);
        proof {
            assert(self@.entries =~= entries.insert(place as int, view));
        }
    }

    /// Adds `transaction`, submitted with `fee` now, unless the pool has a
    /// transaction with its hash already: then nothing changes, and the
    /// clock is not read. Fails, and changes nothing, where the clock is
    /// read and reads a time before the Unix epoch.
    pub fn submit_transaction(&mut self, transaction: &Transaction, fee: u64) -> (r: Result<
        (),
        Error,
    >)
        requires
            old(self).wf(),
        ensures
            final(self).wf(),
            contains_hash(old(self)@.entries, transaction_hash(transaction@)) ==> r is Ok,
            match r {
                Ok(()) => exists|timestamp: u64|
                    final(self)@ == #[trigger] old(self)@.submit(transaction@, fee, timestamp),
                Err(e) => e == Error::StoreFailure && final(self)@ == old(self)@,
            },
    {
        let known = transaction.hash();
        if self.contains(&known) {
            proof {
                assert(self@ == old(self)@.submit(transaction@, fee, 0));
            }
            return Ok(());
        }
        match unix_timestamp() {
            Some(timestamp) => {
                self.submit_transaction_at(transaction, fee, timestamp);
                Ok(())
            },
            None => Err(Error::StoreFailure),
        }
    }

    /// Deletes the transaction with `hash` from the pool.
    pub fn remove(&mut self, transaction_hash: &[u8; HASH_LENGTH]) -> (r: Result<(), Error>)
        requires
            old(self).wf(),
        ensures
            final(self).wf(),
            match r {
                Ok(()) => contains_hash(old(self)@.entries, transaction_hash@) && final(self)@ == (
                MempoolView {
                    entries: without(old(self)@.entries, transaction_hash@),
                    ..old(self)@
                }),
                Err(e) => e == Error::NotInMempool && !contains_hash(
                    old(self)@.entries,
                    transaction_hash@,
                ) && final(self)@ == old(self)@,
            },
    {
        let at = match self.find(transaction_hash) {
            Some(at) => at,
            None => {
                return Err(Error::NotInMempool);
            },
        };
        let ghost before = self@.entries;
        proof {
            assert(before[at as int].hash == transaction_hash@);
            let chosen = index_of_hash(before, transaction_hash@);
            assert(0 <= chosen < before.len() && before[chosen].hash == transaction_hash@);
            assert(chosen == at);
        }
        let _ = self.entries.remove(at);
        proof {
            assert(self@.entries =~= before.remove(at as int));
            lemma_remove_consistent(old(self)@, at as int);
        }
        Ok(())
    }

    /// The hashes of `transactions`, where each of them is in the pool
    /// and none of them twice.
    fn connect_hashes(&self, transactions: &[Transaction]) -> (r: Option<Vec<[u8; HASH_LENGTH]>>)
        requires
            self.wf(),
        ensures
            match r {
                Some(hashes) => self@.connectable(transaction_views(transactions@)) && hash_views(
                    hashes@,
                ) == transaction_hashes(transaction_views(transactions@)),
                None => !self@.connectable(transaction_views(transactions@)),
            },
    {
        let ghost views = transaction_views(transactions@);
        let ghost wanted = transaction_hashes(views);
        let mut hashes: Vec<[u8; HASH_LENGTH]> = Vec::new();
        let mut k: usize = 0;
        while k < transactions.len()
            invariant
                k <= transactions@.len(),
                self.wf(),
                views == transaction_views(transactions@),
                wanted == transaction_hashes(views),
                hashes@.len() == k,
                forall|a: int| 0 <= a < k ==> (#[trigger] hashes@[a])@ == wanted[a],
                forall|a: int| 0 <= a < k ==> contains_hash(self@.entries, #[trigger] wanted[a]),
                forall|a: int, b: int| 0 <= a < b < k ==> #[trigger] wanted[a] != #[trigger] wanted[b],
            decreases transactions.len() - k,
        {
            let hash = transactions[k].hash();
            assert(hash@ == wanted[k as int]);
            if self.find(&hash).is_none() {
                return None;
            }
            let mut a: usize = 0;
            while a < k
                invariant
                    a <= k,
                    k < transactions@.len(),
                    hashes@.len() == k,
                    hash@ == wanted[k as int],
                        self.wf(),
                    views == transaction_views(transactions@),
                    wanted == transaction_hashes(views),
                    forall|b: int| 0 <= b < k ==> (#[trigger] hashes@[b])@ == wanted[b],
                    forall|b: int| 0 <= b < a ==> #[trigger] wanted[b] != wanted[k as int],
                decreases k - a,
            {
                if bytes_equal(&hashes[a], &hash) {
                    proof {
                        assert(wanted[a as int] == wanted[k as int]);
                    }
                    return None;
                }
                a += 1;
            }
            hashes.push(hash);
            k += 1;
        }
        proof {
            assert(hash_views(hashes@) =~= wanted);
        }
        Some(hashes)
    }

    /// Whether each of `transactions` is in the pool, and none of them twice.
    pub fn is_connectable(&self, transactions: &[Transaction]) -> (r: bool)
        requires
            self.wf(),
        ensures
            r == self@.connectable(transaction_views(transactions@)),
    {
        self.connect_hashes(transactions).is_some()
    }

    /// On block connection: clears the selection and deletes the
    /// transactions of the block from the pool, and keeps a record of
    /// both for `disconnect`. Fails, and changes nothing, unless each of
    /// the transactions is in the pool, once.
    pub fn connect(&mut self, transactions: &[Transaction]) -> (r: Result<(), Error>)
        requires
            old(self).wf(),
        ensures
            final(self).wf(),
            match r {
                Ok(()) => old(self)@.connectable(transaction_views(transactions@)) && final(self)@
                    == old(self)@.connect(transaction_views(transactions@)),
                Err(e) => e == Error::NotInMempool && !old(self)@.connectable(
                    transaction_views(transactions@),
                ) && final(self)@ == old(self)@,
            },
    {
        let ghost views = transaction_views(transactions@);
        let ghost wanted = transaction_hashes(views);
        let hashes = match self.connect_hashes(transactions) {
            Some(hashes) => hashes,
            None => {
                return Err(Error::NotInMempool);
            },
        };
        let pending = self.get_pending_hashes();
        self.pending_selected.clear();
        let mut removed: Vec<(usize, MempoolEntry)> = Vec::new();
        let mut k: usize = 0;
        proof {
            assert forall|a: int| 0 <= a < wanted.len() implies (#[trigger] hashes@[a])@ == wanted[a] by {
                assert(hash_views(hashes@)[a] == hashes@[a]@);
            }
            assert(self@.entries == old(self)@.entries);
            assert(self@.journal == old(self)@.journal);
            assert(self@.consistent());
            assert(self@.pending_selected =~= Seq::<Seq<u8>>::empty());
            assert(wanted.take(0) =~= Seq::<Seq<u8>>::empty());
            assert(removed_views(removed@) =~= removal_log(old(self)@.entries, wanted.take(0)));
        }
        while k < hashes.len()
            invariant
                k <= hashes@.len(),
                hashes@.len() == wanted.len(),
                self.wf(),
                old(self)@.consistent(),
                self@.pending_selected == Seq::<Seq<u8>>::empty(),
                self@.journal == old(self)@.journal,
                self@.entries == without_all(old(self)@.entries, wanted.take(k as int)),
                removed_views(removed@) == removal_log(old(self)@.entries, wanted.take(k as int)),
                forall|a: int| 0 <= a < wanted.len() ==> (#[trigger] hashes@[a])@ == wanted[a],
                forall|a: int|
                    0 <= a < wanted.len() ==> contains_hash(old(self)@.entries, #[trigger] wanted[a]),
                forall|a: int, b: int|
                    0 <= a < b < wanted.len() ==> #[trigger] wanted[a] != #[trigger] wanted[b],
            decreases hashes.len() - k,
        {
            let ghost before = self@.entries;
            let ghost hash = wanted[k as int];
            proof {
                lemma_without_all_keeps(old(self)@, wanted, k as int, hash);
                assert(wanted.take(k + 1).drop_last() =~= wanted.take(k as int));
                assert(wanted.take(k + 1).last() == hash);
            }
            let at = match self.find(&hashes[k]) {
                Some(at) => at,
                None => {
                    proof {
                        assert(false);
                    }
                    0
                },
            };
            proof {
                let chosen = index_of_hash(before, hash);
                assert(before[at as int].hash == hash);
                assert(0 <= chosen < before.len() && before[chosen].hash == hash);
                assert(chosen == at);
                lemma_remove_consistent(self@, at as int);
            }
            let ghost log = removed_views(removed@);
            let entry = self.entries.remove(at);
            proof {
                assert(entry@ == before[at as int]);
                assert(self@.entries =~= before.remove(at as int));
            }
            removed.push((at, entry));
            proof {
                assert(removed_views(removed@) =~= log.push((at as int, before[at as int])));
            }
            k += 1;
        }
        proof {
            assert(wanted.take(k as int) =~= wanted);
            lemma_connect_consistent(old(self)@, views);
        }
        let ghost journal = self@.journal;
        self.journal.push(MempoolUndo { removed, pending_selected: pending });
        proof {
            assert(self@.journal =~= journal.push(
                MempoolUndoView {
                    removed: removal_log(old(self)@.entries, wanted),
                    pending_selected: old(self)@.pending_selected,
                },
            ));
        }
        Ok(())
    }

    /// Gives back what the newest connected block took: its transactions
    /// are pending again, as they were, and the selection that it cleared
    /// stands again. Fails, and changes nothing, where no block is connected.
    pub fn disconnect(&mut self) -> (r: Result<(), Error>)
        requires
            old(self).wf(),
        ensures
            final(self).wf(),
            match r {
                Ok(()) => old(self)@.journal.len() > 0 && final(self)@ == old(self)@.disconnect(),
                Err(e) => e == Error::StoreFailure && old(self)@.journal.len() == 0 && final(self)@
                    == old(self)@,
            },
    {
        let ghost journal = self@.journal;
        let mut record = match self.journal.pop() {
            Some(record) => record,
            None => {
                return Err(Error::StoreFailure);
            },
        };
        let ghost removed = record@.removed;
        let ghost pending = record@.pending_selected;
        proof {
            assert(self@.journal =~= journal.drop_last());
            assert(record@ == journal.last());
            assert forall|k: int| 0 <= k < removed.len() implies genuine((#[trigger] removed[k]).1) by {
                assert(genuine(journal[journal.len() - 1].removed[k].1));
            }
            assert forall|j: int, k: int|
                0 <= j < self@.journal.len() && 0 <= k < self@.journal[j].removed.len() implies genuine(
                (#[trigger] self@.journal[j].removed[k]).1,
            ) by {
                assert(genuine(journal[j].removed[k].1));
            }
            assert(self@.entries == old(self)@.entries);
            let shorter = MempoolView { journal: self@.journal, ..old(self)@ };
            lemma_shorter_journal_consistent(old(self)@, shorter);
            lemma_consistent_by_entries(shorter, self@);
        }
        while record.removed.len() > 0
            invariant
                self.wf(),
                old(self)@.journal.len() > 0,
                self@.journal == old(self)@.journal.drop_last(),
                self@.pending_selected == old(self)@.pending_selected,
                hash_views(record.pending_selected@) == pending,
                forall|k: int|
                    0 <= k < record.removed@.len() ==> genuine(
                        (#[trigger] removed_views(record.removed@)[k]).1,
                    ),
                restore_all(self@.entries, removed_views(record.removed@)) == restore_all(
                    old(self)@.entries,
                    removed,
                ),
            decreases record.removed.len(),
        {
            let ghost left = removed_views(record.removed@);
            let (at, entry) = match record.removed.pop() {
                Some(last) => last,
                None => {
                    proof {
                        assert(false);
                    }
                    return Err(Error::StoreFailure);
                },
            };
            proof {
                assert(removed_views(record.removed@) =~= left.drop_last());
                assert(left.last() == (at as int, entry@));
                assert(genuine(left[left.len() - 1].1));
                assert forall|k: int| 0 <= k < record.removed@.len() implies genuine(
                    (#[trigger] removed_views(record.removed@)[k]).1,
                ) by {
                    assert(genuine(left[k].1));
                }
            }
            self.put_back(at, entry);
        }
        let ghost entries = self@;
        self.pending_selected = record.pending_selected;
        proof {
            lemma_consistent_by_entries(entries, self@);
            assert(removed_views(record.removed@) =~= Seq::<(int, EntryView)>::empty());
            assert(pending == old(self)@.journal.last().pending_selected);
        }
        Ok(())
    }

    /// The transactions of the most recent selection, in the order selected.
    pub fn get_pending_transactions(&self) -> (r: Result<Vec<Transaction>, Error>)
        requires
            self.wf(),
        ensures
            match r {
                Ok(transactions) => self@.pending_present() && transaction_views(transactions@)
                    == pending_transactions(self@.entries, self@.pending_selected),
                Err(e) => e == Error::NotInMempool && !self@.pending_present(),
            },
    {
        let ghost goal = pending_transactions(self@.entries, self@.pending_selected);
        let mut transactions: Vec<Transaction> = Vec::new();
        let mut k: usize = 0;
        while k < self.pending_selected.len()
            invariant
                k <= self.pending_selected@.len(),
                self.wf(),
                goal == pending_transactions(self@.entries, self@.pending_selected),
                transaction_views(transactions@) == goal.take(k as int),
                forall|a: int|
                    0 <= a < k ==> contains_hash(self@.entries, #[trigger] self@.pending_selected[a]),
            decreases self.pending_selected.len() - k,
        {
            let ghost hash = self@.pending_selected[k as int];
            assert(hash == self.pending_selected@[k as int]@);
            let at = match self.find(&self.pending_selected[k]) {
                Some(at) => at,
                None => {
                    return Err(Error::NotInMempool);
                },
            };
            proof {
                let chosen = index_of_hash(self@.entries, hash);
                assert(self@.entries[at as int].hash == hash);
                assert(0 <= chosen < self@.entries.len() && self@.entries[chosen].hash == hash);
                assert(chosen == at);
            }
            let ghost before = transactions@;
            transactions.push(self.entries[at].transaction.duplicate());
            proof {
                assert(transaction_views(transactions@) =~= transaction_views(before).push(
                    goal[k as int],
                ));
                assert(goal.take(k + 1) =~= goal.take(k as int).push(goal[k as int]));
            }
            k += 1;
        }
        proof {
            assert(goal.take(k as int) =~= goal);
        }
        Ok(transactions)
    }

    /// Selects anew the transactions for the next block: those with the
    /// highest priority that do not conflict and that fit together.
    pub fn collect_transactions(&mut self)
        requires
            old(self).wf(),
        ensures
            final(self).wf(),
            final(self)@ == (MempoolView {
                pending_selected: hashes_at(old(self)@.entries, selection(old(self)@.entries)),
                ..old(self)@
            }),
    {
        let ghost entries = self@.entries;
        let mut spent = OutPointSet::new();
        let mut selected: Vec<[u8; HASH_LENGTH]> = Vec::new();
        let ghost mut indices: Seq<int> = Seq::empty();
        let mut size: usize = 8;
        let mut stopped_fee: Option<u64> = None;
        let mut n: usize = 0;
        proof {
            assert(hash_views(selected@) =~= hashes_at(entries, indices));
        }
        while n < self.entries.len()
            invariant
                n <= self.entries@.len(),
                entries == self@.entries,
                self@ == old(self)@,
                spent.wf(),
                pack(entries, n as int) == (Packing {
                    selected: indices,
                    spent: spent@,
                    size: size as nat,
                    stopped_fee,
                }),
                size <= BLOCK_SIZE_LIMIT,
                hash_views(selected@) == hashes_at(entries, indices),
            decreases self.entries.len() - n,
        {
            let entry = &self.entries[n];
            assert(entry@ == entries[n as int]);
            let ghost before = pack(entries, n as int);
            let stopped = match stopped_fee {
                Some(fee) => fee == entry.fee,
                None => false,
            };
            if !stopped {
                if !spends_any(&entry.transaction, &spent) {
                    if entry.size as usize > BLOCK_SIZE_LIMIT - size {
                        stopped_fee = Some(entry.fee);
                    } else {
                        let ghost hashes_before = selected@;
                        selected.push(entry.hash);
                        size = size + entry.size as usize;
                        mark_spent(&mut spent, &entry.transaction);
                        proof {
                            let grown = indices.push(n as int);
                            assert(hash_views(selected@) =~= hashes_at(entries, grown)) by {
                                assert(hash_views(selected@) =~= hash_views(hashes_before).push(
                                    entry.hash@,
                                ));
                                assert forall|k: int| 0 <= k < grown.len() implies #[trigger] hashes_at(
                                    entries,
                                    grown,
                                )[k] == hash_views(selected@)[k] by {
                                    if k < indices.len() {
                                        assert(hashes_at(entries, indices)[k] == entries[indices[k]].hash);
                                    }
                                }
                            }
                            indices = grown;
                        }
                    }
                }
            }
            n += 1;
        }
        self.pending_selected = selected;
    }
}

/// Whether `a` has priority over `b`.
fn outranks(a: &MempoolEntry, b: &MempoolEntry) -> (r: bool)
    ensures
        r == ranks_before(a@, b@),
{
    a.fee > b.fee || (a.fee == b.fee && (a.size < b.size || (a.size == b.size && a.timestamp
        < b.timestamp)))
}

/// Whether `transaction` spends an outpoint of `spent`.
fn spends_any(transaction: &Transaction, spent: &OutPointSet) -> (r: bool)
    ensures
        r == spends_from(transaction@.inputs, spent@),
{
    let mut i: usize = 0;
    while i < transaction.inputs.len()
        invariant
            i <= transaction.inputs@.len(),
            forall|k: int| 0 <= k < i ==> !spent@.contains(#[trigger] transaction@.inputs[k]),
        decreases transaction.inputs.len() - i,
    {
        if spent.contains(&transaction.inputs[i]) {
            return true;
        }
        i += 1;
    }
    false
}

/// Adds the outpoints that `transaction` spends to `spent`.
fn mark_spent(spent: &mut OutPointSet, transaction: &Transaction)
    requires
        old(spent).wf(),
    ensures
        final(spent).wf(),
        final(spent)@ == old(spent)@ + transaction@.inputs.to_set(),
{
    let ghost inputs = transaction@.inputs;
    let mut i: usize = 0;
    proof {
        assert(spent@ =~= old(spent)@ + inputs.take(0).to_set());
    }
    while i < transaction.inputs.len()
        invariant
            i <= transaction.inputs@.len(),
            inputs == transaction@.inputs,
            spent.wf(),
            spent@ == old(spent)@ + inputs.take(i as int).to_set(),
        decreases transaction.inputs.len() - i,
    {
        spent.insert(transaction.inputs[i]);
        proof {
            let a = inputs.take(i as int);
            let b = inputs.take(i + 1);
            assert(b =~= a.push(inputs[i as int]));
            assert forall|p: OutPoint| b.contains(p) <==> (a.contains(p) || p == inputs[i as int]) by {
                if b.contains(p) {
                    let j = choose|j: int| 0 <= j < b.len() && b[j] == p;
                    if j < a.len() {
                        assert(a[j] == p);
                    }
                }
                if a.contains(p) {
                    let j = choose|j: int| 0 <= j < a.len() && a[j] == p;
                    assert(b[j] == p);
                }
                if p == inputs[i as int] {
                    assert(b[i as int] == p);
                }
            }
            assert(spent@ =~= old(spent)@ + b.to_set());
        }
        i += 1;
    }
    proof {
        assert(inputs.take(i as int) =~= inputs);
    }
}

} // verus!
