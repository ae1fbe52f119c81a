//! The block archive: the connected headers with their transactions and
//! coinbases, and the BMM commitments that the parent chain has reported.

use vstd::prelude::*;
use crate::hashing::{header_hash, Hashable};
use crate::tables::HashSet32;
use crate::types::{
    bytes_equal, copy_outputs, Error, Header, Output, Transaction, TransactionView,
    transaction_views, HASH_LENGTH,
};

verus! {

pub struct Archive {
    /// Block number - 1 -> (header, transactions range).
    headers: Vec<(Header, (u64, u64))>,
    /// Block number - 1 -> coinbase.
    coinbases: Vec<Vec<Output>>,
    /// Transaction sequence number -> transaction.
    transactions: Vec<Transaction>,
    bmm_hashes: HashSet32,
}

/// The tables of the archive. The block numbered `n` is at index `n - 1`
/// of `headers` and `coinbases`: block 0 is genesis and is not stored.
pub struct ArchiveView {
    pub headers: Seq<(Header, (u64, u64))>,
    pub coinbases: Seq<Seq<Output>>,
    pub transactions: Seq<TransactionView>,
    pub bmm_hashes: Set<Seq<u8>>,
}

/// The lists of a list of coinbases, each as a mathematical value.
pub open spec fn coinbase_views(coinbases: Seq<Vec<Output>>) -> Seq<Seq<Output>> {
    coinbases.map_values(|c: Vec<Output>| c@)
}

/// The hashes of a list, as a set.
pub open spec fn hash_set(hashes: Seq<[u8; HASH_LENGTH]>) -> Set<Seq<u8>> {
    Set::new(|h: Seq<u8>| exists|i: int| 0 <= i < hashes.len() && #[trigger] hashes[i]@ == h)
}

/// The hash that stands for "no block": 32 zero bytes.
pub open spec fn zero_hash() -> Seq<u8> {
    Seq::new(HASH_LENGTH as nat, |i: int| 0u8)
}

impl View for Archive {
    type V = ArchiveView;

    closed spec fn view(&self) -> ArchiveView {
        ArchiveView {
            headers: self.headers@,
            coinbases: coinbase_views(self.coinbases@),
            transactions: transaction_views(self.transactions@),
            bmm_hashes: self.bmm_hashes@,
        }
    }
}

impl ArchiveView {
    /// Where the transactions of the block at index `i` start.
    pub open spec fn range_start(self, i: int) -> u64 {
        self.headers[i].1.0
    }

    /// Where the transactions of the block at index `i` end: one past the last.
    pub open spec fn range_end(self, i: int) -> u64 {
        self.headers[i].1.1
    }

    /// The number of transactions that the headers account for.
    pub open spec fn accounted(self) -> nat {
        if self.headers.len() == 0 {
            0
        } else {
            self.range_end(self.headers.len() - 1) as nat
        }
    }

    /// Each block has a coinbase, the block numbers fit in 32 bits, and the
    /// headers' ranges follow one another from 0 and cover exactly the
    /// stored transactions.
    pub open spec fn consistent(self) -> bool {
        &&& self.coinbases.len() == self.headers.len()
        &&& self.headers.len() <= u32::MAX
        &&& forall|i: int|
            0 <= i < self.headers.len() ==> #[trigger] self.range_start(i) <= self.range_end(i)
                && self.range_start(i) == (if i == 0 {
                0
            } else {
                self.range_end(i - 1)
            })
        &&& self.transactions.len() == self.accounted()
    }

    /// The hash that the next header must name as its predecessor.
    pub open spec fn tip_hash(self) -> Seq<u8> {
        if self.headers.len() == 0 {
            zero_hash()
        } else {
            header_hash(self.headers.last().0)
        }
    }

    /// The number that the next connected block gets.
    pub open spec fn next_block_number(self) -> nat {
        self.headers.len() + 1
    }

    /// The archive with one more block.
    pub open spec fn connect(
        self,
        header: Header,
        coinbase: Seq<Output>,
        transactions: Seq<TransactionView>,
    ) -> ArchiveView {
        ArchiveView {
            headers: self.headers.push(
                (
                    header,
                    (
                        self.transactions.len() as u64,
                        (self.transactions.len() + transactions.len()) as u64,
                    ),
                ),
            ),
            coinbases: self.coinbases.push(coinbase),
            transactions: self.transactions + transactions,
            bmm_hashes: self.bmm_hashes,
        }
    }

    /// The archive without its newest `number` blocks.
    pub open spec fn disconnect(self, number: nat) -> ArchiveView {
        let kept = self.headers.len() - number;
        ArchiveView {
            headers: self.headers.take(kept),
            coinbases: self.coinbases.take(kept),
            transactions: if number == 0 {
                self.transactions
            } else {
                self.transactions.take(self.range_start(kept) as int)
            },
            bmm_hashes: self.bmm_hashes,
        }
    }

    /// The transactions of the block at index `i`.
    pub open spec fn block_transactions(self, i: int) -> Seq<TransactionView> {
        self.transactions.subrange(self.range_start(i) as int, self.range_end(i) as int)
    }
}

/// Taking the newest block back out of an archive gives the archive as it
/// was before the block was connected.
pub proof fn lemma_archive_connect_then_disconnect(
    before: ArchiveView,
    header: Header,
    coinbase: Seq<Output>,
    transactions: Seq<TransactionView>,
)
    requires
        before.consistent(),
        before.transactions.len() + transactions.len() <= u64::MAX,
    ensures
        before.connect(header, coinbase, transactions).disconnect(1) == before,
{
    let after = before.connect(header, coinbase, transactions);
    assert(after.headers.take(after.headers.len() - 1) =~= before.headers);
    assert(after.coinbases.take(after.headers.len() - 1) =~= before.coinbases);
    assert(after.transactions.take(before.transactions.len() as int) =~= before.transactions);
}

/// Connecting a block keeps the archive consistent.
pub proof fn lemma_archive_connect_consistent(
    before: ArchiveView,
    header: Header,
    coinbase: Seq<Output>,
    transactions: Seq<TransactionView>,
)
    requires
        before.consistent(),
        before.headers.len() < u32::MAX,
        before.transactions.len() + transactions.len() <= u64::MAX,
    ensures
        before.connect(header, coinbase, transactions).consistent(),
{
    let after = before.connect(header, coinbase, transactions);
    assert forall|i: int| 0 <= i < after.headers.len() implies #[trigger] after.range_start(i)
        <= after.range_end(i) && after.range_start(i) == (if i == 0 {
        0
    } else {
        after.range_end(i - 1)
    }) by {
        if i < before.headers.len() {
            assert(before.range_start(i) <= before.range_end(i));
            if i > 0 {
                assert(after.range_end(i - 1) == before.range_end(i - 1));
            }
        }
    }
}

/// Disconnecting blocks keeps the archive consistent.
pub proof fn lemma_archive_disconnect_consistent(before: ArchiveView, number: nat)
    requires
        before.consistent(),
        number <= before.headers.len(),
    ensures
        before.disconnect(number).consistent(),
{
    let after = before.disconnect(number);
    let kept = before.headers.len() - number;
    assert forall|i: int| 0 <= i < after.headers.len() implies #[trigger] after.range_start(i)
        <= after.range_end(i) && after.range_start(i) == (if i == 0 {
        0
    } else {
        after.range_end(i - 1)
    }) by {
        assert(before.range_start(i) <= before.range_end(i));
    }
    if number > 0 {
        assert(before.range_start(kept) <= before.range_end(kept));
        lemma_range_ends_grow(before, kept, before.headers.len() - 1);
    }
}

/// The ranges of later blocks end no earlier than those of earlier blocks,
/// and none ends beyond the stored transactions.
pub proof fn lemma_range_ends_grow(archive: ArchiveView, i: int, j: int)
    requires
        archive.consistent(),
        0 <= i <= j < archive.headers.len(),
    ensures
        archive.range_end(i) <= archive.range_end(j),
        archive.range_end(j) <= archive.transactions.len(),
{
    lemma_range_ends_monotone(archive, i, j);
    lemma_range_ends_monotone(archive, j, archive.headers.len() - 1);
}

/// Whether an archive is consistent does not depend on its commitments.
pub proof fn lemma_consistent_whatever_committed(a: ArchiveView, b: ArchiveView)
    requires
        a.consistent(),
        a.headers == b.headers,
        a.coinbases == b.coinbases,
        a.transactions == b.transactions,
    ensures
        b.consistent(),
{
    assert forall|i: int| 0 <= i < b.headers.len() implies #[trigger] b.range_start(i)
        <= b.range_end(i) && b.range_start(i) == (if i == 0 {
        0
    } else {
        b.range_end(i - 1)
    }) by {
        assert(a.range_start(i) <= a.range_end(i));
    }
}

proof fn lemma_range_ends_monotone(archive: ArchiveView, i: int, j: int)
    requires
        archive.consistent(),
        0 <= i <= j < archive.headers.len(),
    ensures
        archive.range_end(i) <= archive.range_end(j),
    decreases j - i,
{
    if i < j {
        lemma_range_ends_monotone(archive, i, j - 1);
        assert(archive.range_start(j) <= archive.range_end(j));
    }
}

impl Archive {
    pub closed spec fn wf(&self) -> bool {
        self@.consistent()
    }

    /// In a well-formed archive the tables are consistent.
    pub proof fn lemma_wf_consistent(&self)
        requires
            self.wf(),
        ensures
            self@.consistent(),
    {
    }

    /// An empty archive: no block but genesis, no commitment.
    pub fn new() -> (r: Archive)
        ensures
            r.wf(),
            r@ == (ArchiveView {
                headers: Seq::empty(),
                coinbases: Seq::empty(),
                transactions: Seq::empty(),
                bmm_hashes: Set::empty(),
            }),
    {
        let r = Archive {
            headers: Vec::new(),
            coinbases: Vec::new(),
            transactions: Vec::new(),
            bmm_hashes: HashSet32::new(),
        };
        proof {
            assert(r@.coinbases =~= Seq::<Seq<Output>>::empty());
            assert(r@.transactions =~= Seq::<TransactionView>::empty());
        }
        r
    }

    /// Whether `header` may be connected: its hash is BMM-committed, and it
    /// names the current tip as its predecessor.
    pub fn validate_header(&self, header: &Header) -> (r: Result<(), Error>)
        requires
            self.wf(),
        ensures
            r == (if !self@.bmm_hashes.contains(header_hash(*header)) {
                Err::<(), Error>(Error::NotBmmCommitted)
            } else if header.prev_side_block_hash@ != self@.tip_hash() {
                Err(Error::WrongPrev)
            } else {
                Ok(())
            }),
    {
        let block_hash = header.hash();
        if !self.bmm_hashes.contains(&block_hash) {
            return Err(Error::NotBmmCommitted);
        }
        let prev_block_hash = match self.get_chain_tip() {
            Some((_block_number, (tip, _range))) => tip.hash(),
            None => [0u8; HASH_LENGTH],
        };
        proof {
            if self.headers@.len() == 0 {
                assert(prev_block_hash@ =~= zero_hash());
            }
        }
        if !bytes_equal(&header.prev_side_block_hash, &prev_block_hash) {
            return Err(Error::WrongPrev);
        }
        Ok(())
    }

    /// Records the commitments that a parent block carries.
    pub fn add_bmm_hashes(&mut self, bmm_hashes: &[[u8; HASH_LENGTH]])
        requires
            old(self).wf(),
        ensures
            final(self).wf(),
            final(self)@ == (ArchiveView {
                bmm_hashes: old(self)@.bmm_hashes + hash_set(bmm_hashes@),
                ..old(self)@
            }),
    {
        let mut i: usize = 0;
        proof {
            assert(hash_set(bmm_hashes@.take(0)) =~= Set::<Seq<u8>>::empty());
            assert(self.bmm_hashes@ =~= old(self)@.bmm_hashes + hash_set(bmm_hashes@.take(0)));
        }
        while i < bmm_hashes.len()
            invariant
                i <= bmm_hashes@.len(),
                self.wf(),
                self.bmm_hashes@ == old(self)@.bmm_hashes + hash_set(bmm_hashes@.take(i as int)),
                self.headers == old(self).headers,
                self.coinbases == old(self).coinbases,
                self.transactions == old(self).transactions,
            decreases bmm_hashes.len() - i,
        {
            let ghost view_before = self@;
            self.bmm_hashes.insert(bmm_hashes[i]);
            proof {
                lemma_consistent_whatever_committed(view_before, self@);
                let a = bmm_hashes@.take(i as int);
                let b = bmm_hashes@.take(i + 1);
                assert forall|h: Seq<u8>|
                    hash_set(b).contains(h) <==> (hash_set(a).contains(h) || h == bmm_hashes@[i as int]@) by {
                    if hash_set(b).contains(h) {
                        let j = choose|j: int| 0 <= j < b.len() && #[trigger] b[j]@ == h;
                        if j < i {
                            assert(a[j]@ == h);
                        }
                    }
                    if hash_set(a).contains(h) {
                        let j = choose|j: int| 0 <= j < a.len() && #[trigger] a[j]@ == h;
                        assert(b[j]@ == h);
                    }
                    if h == bmm_hashes@[i as int]@ {
                        assert(b[i as int]@ == h);
                    }
                }
                assert(self.bmm_hashes@ =~= old(self)@.bmm_hashes + hash_set(b));
            }
            i += 1;
        }
        proof {
            assert(bmm_hashes@.take(i as int) =~= bmm_hashes@);
        }
    }

    /// Whether `hash` is among the commitments that the parent chain reported.
    pub fn is_bmm_committed(&self, hash: &[u8; HASH_LENGTH]) -> (r: bool)
        ensures
            r == self@.bmm_hashes.contains(hash@),
    {
        self.bmm_hashes.contains(hash)
    }

    /// The number of archived transactions.
    pub fn transaction_count(&self) -> (r: usize)
        ensures
            r == self@.transactions.len(),
    {
        self.transactions.len()
    }

    /// The header of the block numbered `block_number`, with its
    /// transactions range.
    pub fn get_header(&self, block_number: u32) -> (r: Option<(Header, (u64, u64))>)
        ensures
            r == (if 1 <= block_number <= self@.headers.len() {
                Some(self@.headers[block_number - 1])
            } else {
                None
            }),
    {
        if block_number == 0 || block_number as usize > self.headers.len() {
            return None;
        }
        Some(self.headers[(block_number - 1) as usize])
    }

    /// The newest block: its number, its header and its transactions range.
    pub fn get_chain_tip(&self) -> (r: Option<(u32, (Header, (u64, u64)))>)
        requires
            self.wf(),
        ensures
            r == (if self@.headers.len() == 0 {
                None
            } else {
                Some((self@.headers.len() as u32, self@.headers.last()))
            }),
    {
        let count = self.headers.len();
        if count == 0 {
            None
        } else {
            Some((count as u32, self.headers[count - 1]))
        }
    }

    /// The coinbase of the block numbered `block_number`.
    pub fn get_coinbase(&self, block_number: u32) -> (r: Option<Vec<Output>>)
        requires
            self.wf(),
        ensures
            match r {
                Some(coinbase) => 1 <= block_number <= self@.headers.len() && coinbase@
                    == self@.coinbases[block_number - 1],
                None => !(1 <= block_number <= self@.headers.len()),
            },
    {
        if block_number == 0 || block_number as usize > self.coinbases.len() {
            return None;
        }
        let index = (block_number - 1) as usize;
        Some(copy_outputs(self.coinbases[index].as_slice()))
    }

    /// The transactions of the block numbered `block_number`.
    pub fn get_transactions(&self, block_number: u32) -> (r: Option<Vec<Transaction>>)
        requires
            self.wf(),
        ensures
            match r {
                Some(transactions) => 1 <= block_number <= self@.headers.len() && transaction_views(
                    transactions@,
                ) == self@.block_transactions(block_number - 1),
                None => !(1 <= block_number <= self@.headers.len()),
            },
    {
        if block_number == 0 || block_number as usize > self.headers.len() {
            return None;
        }
        let index = (block_number - 1) as usize;
        let (start, end) = self.headers[index].1;
        proof {
            assert(self@.range_start(index as int) <= self@.range_end(index as int));
            lemma_range_ends_grow(self@, index as int, index as int);
        }
        let ghost views = self@.transactions;
        let stored = self.transactions.len();
        proof {
            assert(self@.range_start(index as int) == start);
            assert(self@.range_end(index as int) == end);
            assert(self@.transactions.len() == stored);
        }
        let mut copy: Vec<Transaction> = Vec::new();
        let mut i: usize = start as usize;
        proof {
            assert(transaction_views(copy@) =~= views.subrange(start as int, i as int));
        }
        while i < end as usize
            invariant
                start <= i <= end <= self.transactions@.len(),
                views == transaction_views(self.transactions@),
                transaction_views(copy@) == views.subrange(start as int, i as int),
            decreases end - i,
        {
            let ghost before = copy@;
            copy.push(self.transactions[i].duplicate());
            proof {
                assert(transaction_views(copy@) =~= transaction_views(before).push(views[i as int]));
                assert(views.subrange(start as int, i + 1) =~= views.subrange(
                    start as int,
                    i as int,
                ).push(views[i as int]));
            }
            i += 1;
        }
        Some(copy)
    }

    /// Appends a block: it gets the next block number, its transactions the
    /// next sequence numbers.
    pub fn connect(&mut self, header: Header, coinbase: &[Output], transactions: &[Transaction]) -> (r:
        Result<(), Error>)
        requires
            old(self).wf(),
        ensures
            final(self).wf(),
            match r {
                Ok(()) => old(self)@.headers.len() < u32::MAX && final(self)@ == old(self)@.connect(
                    header,
                    coinbase@,
                    transaction_views(transactions@),
                ),
                Err(e) => e == Error::StoreFailure && old(self)@.headers.len() >= u32::MAX
                    && final(self)@ == old(self)@,
            },
    {
        if self.headers.len() >= u32::MAX as usize {
            return Err(Error::StoreFailure);
        }
        let ghost views = transaction_views(transactions@);
        let transaction_range_start = self.transactions.len() as u64;
        let mut i: usize = 0;
        proof {
            assert(transaction_views(self.transactions@) =~= old(self)@.transactions + views.take(0));
        }
        while i < transactions.len()
            invariant
                i <= transactions@.len(),
                views == transaction_views(transactions@),
                transaction_views(self.transactions@) == old(self)@.transactions + views.take(
                    i as int,
                ),
                self.headers == old(self).headers,
                self.coinbases == old(self).coinbases,
                self.bmm_hashes == old(self).bmm_hashes,
            decreases transactions.len() - i,
        {
            let ghost before = self.transactions@;
            self.transactions.push(transactions[i].duplicate());
            proof {
                assert(transaction_views(self.transactions@) =~= transaction_views(before).push(
                    views[i as int],
                ));
                assert(views.take(i + 1) =~= views.take(i as int).push(views[i as int]));
                assert(transaction_views(self.transactions@) =~= old(self)@.transactions
                    + views.take(i + 1));
            }
            i += 1;
        }
        proof {
            assert(views.take(i as int) =~= views);
        }
        let transaction_range_end = self.transactions.len() as u64;
        let ghost coinbases_before = self.coinbases@;
        self.coinbases.push(copy_outputs(coinbase));
        self.headers.push((header, (transaction_range_start, transaction_range_end)));
        proof {
            assert(coinbase_views(self.coinbases@) =~= coinbase_views(coinbases_before).push(
                coinbase@,
            ));
            lemma_archive_connect_consistent(old(self)@, header, coinbase@, views);
        }
        Ok(())
    }

    /// Removes the newest `number` blocks, with their transactions and
    /// coinbases.
    pub fn disconnect(&mut self, number: u32) -> (r: Result<(), Error>)
        requires
            old(self).wf(),
        ensures
            final(self).wf(),
            match r {
                Ok(()) => number <= old(self)@.headers.len() && final(self)@
                    == old(self)@.disconnect(number as nat),
                Err(e) => e == Error::StoreFailure && number > old(self)@.headers.len()
                    && final(self)@ == old(self)@,
            },
    {
        if number as usize > self.headers.len() {
            return Err(Error::StoreFailure);
        }
        if number == 0 {
            proof {
                assert(self@.headers.take(self@.headers.len() as int) =~= self@.headers);
                assert(self@.coinbases.take(self@.headers.len() as int) =~= self@.coinbases);
            }
            return Ok(());
        }
        let kept = self.headers.len() - number as usize;
        let start = self.headers[kept].1.0;
        proof {
            assert(self@.range_start(kept as int) <= self@.range_end(kept as int));
            lemma_range_ends_grow(self@, kept as int, kept as int);
            lemma_archive_disconnect_consistent(self@, number as nat);
        }
        let ghost coinbases_before = self.coinbases@;
        let ghost transactions_before = self.transactions@;
        self.headers.truncate(kept);
        self.coinbases.truncate(kept);
        self.transactions.truncate(start as usize);
        proof {
            assert(coinbase_views(self.coinbases@) =~= coinbase_views(coinbases_before).take(
                kept as int,
            ));
            assert(transaction_views(self.transactions@) =~= transaction_views(
                transactions_before,
            ).take(start as int));
        }
        Ok(())
    }
}

} // verus!
