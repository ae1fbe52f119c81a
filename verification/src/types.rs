//! The data model: outpoints, outputs, transactions, headers and the
//! records that the parent chain delivers.

use vstd::prelude::*;
use crate::amounts::{checked_outputs_value, outputs_value};

verus! {

pub const MAIN_ADDRESS_LENGTH: usize = 20;

pub const ADDRESS_LENGTH: usize = 20;

pub const HASH_LENGTH: usize = 32;

/// Upper bound on the serialized size of the transactions of one block.
pub const BLOCK_SIZE_LIMIT: usize = 1_048_576;

pub const MAX_OUTPUTS_PER_TX: usize = 256;

pub const MAX_COINBASE_OUTPUTS: usize = 256;

pub const MAX_WITHDRAWAL_BUNDLE_OUTPUTS: usize = 6000;

/// What an operation of the node can fail with.
#[derive(Clone, Copy, Debug, PartialEq, Eq, Structural)]
pub enum Error {
    /// An input is missing, or the outputs are worth more than the inputs.
    InvalidTransaction,
    /// A block spends an output twice, spends a missing output, or pays
    /// its coinbase more than the fees it collects.
    InvalidBlock,
    /// A coinbase or a transaction has more than 256 outputs.
    OutputLimit,
    /// The header's hash is not among the known BMM commitments.
    NotBmmCommitted,
    /// The header does not link to the current tip.
    WrongPrev,
    /// A parent block does not follow the current parent height.
    InvalidMainHeight,
    /// A withdrawal bundle is already locked.
    BundlePending,
    /// A table cannot hold the result: a counter or an amount would leave
    /// its range, bytes do not decode, or an entry that must exist is absent.
    StoreFailure,
    /// The transaction to remove is not in the mempool.
    NotInMempool,
}

impl Error {
    /// What went wrong, in words.
    pub open spec fn spec_message(self) -> Seq<char> {
        match self {
            Error::InvalidTransaction => "transaction is invalid"@,
            Error::InvalidBlock => "block is invalid"@,
            Error::OutputLimit => "too many outputs"@,
            Error::NotBmmCommitted => "block header wasn't blind merge mined"@,
            Error::WrongPrev => "wrong prev_side_block_hash"@,
            Error::InvalidMainHeight => "invalid main block height"@,
            Error::BundlePending => "there is already a withdrawal bundle pending"@,
            Error::StoreFailure => "the store cannot hold or give the value"@,
            Error::NotInMempool => "mempool transaction doesn't exist"@,
        }
    }

    /// What went wrong, in words.
    pub fn message(&self) -> (r: &'static str)
        ensures
            r@ == self.spec_message(),
    {
        match self {
            Error::InvalidTransaction => "transaction is invalid",
            Error::InvalidBlock => "block is invalid",
            Error::OutputLimit => "too many outputs",
            Error::NotBmmCommitted => "block header wasn't blind merge mined",
            Error::WrongPrev => "wrong prev_side_block_hash",
            Error::InvalidMainHeight => "invalid main block height",
            Error::BundlePending => "there is already a withdrawal bundle pending",
            Error::StoreFailure => "the store cannot hold or give the value",
            Error::NotInMempool => "mempool transaction doesn't exist",
        }
    }
}

/// Identifies a spendable unit.
#[derive(Clone, Copy, Debug, PartialEq, Eq, Structural, Hash)]
pub enum OutPoint {
    /// Output of a confirmed sidechain transaction.
    Regular { transaction_number: u64, output_number: u8 },
    /// Value credited from the parent chain.
    Deposit { sequence_number: u64 },
    /// Output of a block's coinbase.
    Coinbase { block_number: u32, output_number: u8 },
}

/// What an outpoint holds.
#[derive(Clone, Copy, Debug, PartialEq, Eq)]
pub enum Output {
    Regular { address: [u8; ADDRESS_LENGTH], value: u64 },
    Withdrawal {
        address: [u8; ADDRESS_LENGTH],
        /// Pay-to-public-key-hash address on the parent chain.
        main_address: [u8; MAIN_ADDRESS_LENGTH],
        value: u64,
        fee: u64,
    },
}

impl Output {
    /// The value that the output consumes: `value`, plus `fee` for a withdrawal.
    pub open spec fn spec_total_value(self) -> nat {
        match self {
            Output::Regular { value, .. } => value as nat,
            Output::Withdrawal { value, fee, .. } => (value + fee) as nat,
        }
    }

    pub open spec fn spec_address(self) -> [u8; ADDRESS_LENGTH] {
        match self {
            Output::Regular { address, .. } => address,
            Output::Withdrawal { address, .. } => address,
        }
    }

    pub open spec fn is_withdrawal(self) -> bool {
        self is Withdrawal
    }

    /// The total value, where it fits in 64 bits.
    pub fn checked_total_value(&self) -> (r: Option<u64>)
        ensures
            r == (if self.spec_total_value() <= u64::MAX {
                Some(self.spec_total_value() as u64)
            } else {
                None
            }),
    {
        match self {
            Output::Regular { value, .. } => Some(*value),
            Output::Withdrawal { value, fee, .. } => value.checked_add(*fee),
        }
    }

    pub fn total_value(&self) -> (r: u64)
        requires
            self.spec_total_value() <= u64::MAX,
        ensures
            r == self.spec_total_value(),
    {
        match self {
            Output::Regular { value, .. } => *value,
            Output::Withdrawal { value, fee, .. } => *value + *fee,
        }
    }

    /// The sidechain address that owns the output.
    pub fn address(&self) -> (r: [u8; ADDRESS_LENGTH])
        ensures
            r == self.spec_address(),
    {
        match self {
            Output::Regular { address, .. } => *address,
            Output::Withdrawal { address, .. } => *address,
        }
    }
}

/// Whether two byte arrays of one length hold the same bytes.
pub fn bytes_equal<const N: usize>(a: &[u8; N], b: &[u8; N]) -> (r: bool)
    ensures
        r == (*a == *b),
        r == (a@ == b@),
{
    let mut i: usize = 0;
    while i < N
        invariant
            i <= N,
            forall|k: int| 0 <= k < i ==> a[k] == b[k],
        decreases N - i,
    {
        if a[i] != b[i] {
            proof {
                assert(a@[i as int] != b@[i as int]);
            }
            return false;
        }
        i += 1;
    }
    proof {
        assert(*a =~= *b);
    }
    true
}

/// A transfer of value: the outpoints it spends and the outputs it creates.
#[derive(Clone, Debug, PartialEq, Eq)]
pub struct Transaction {
    pub inputs: Vec<OutPoint>,
    pub outputs: Vec<Output>,
}

/// A transaction as a mathematical value.
pub struct TransactionView {
    pub inputs: Seq<OutPoint>,
    pub outputs: Seq<Output>,
}

impl View for Transaction {
    type V = TransactionView;

    open spec fn view(&self) -> TransactionView {
        TransactionView { inputs: self.inputs@, outputs: self.outputs@ }
    }
}

impl TransactionView {
    /// The sum of the total values of the outputs.
    pub open spec fn value_out(self) -> nat {
        outputs_value(self.outputs)
    }
}

/// The transactions of a list, each as a mathematical value.
pub open spec fn transaction_views(transactions: Seq<Transaction>) -> Seq<TransactionView> {
    transactions.map_values(|t: Transaction| t@)
}

impl Transaction {
    /// The value of the outputs, where it fits in 64 bits.
    pub fn checked_value_out(&self) -> (r: Option<u64>)
        ensures
            r == (if self@.value_out() <= u64::MAX {
                Some(self@.value_out() as u64)
            } else {
                None
            }),
    {
        checked_outputs_value(self.outputs.as_slice())
    }

    pub fn value_out(&self) -> (r: u64)
        requires
            self@.value_out() <= u64::MAX,
        ensures
            r == self@.value_out(),
    {
        match checked_outputs_value(self.outputs.as_slice()) {
            Some(value) => value,
            None => 0,
        }
    }

    /// A copy of the transaction.
    pub fn duplicate(&self) -> (r: Transaction)
        ensures
            r@ == self@,
    {
        let mut inputs: Vec<OutPoint> = Vec::new();
        let mut i: usize = 0;
        while i < self.inputs.len()
            invariant
                i <= self.inputs.len(),
                inputs@ == self.inputs@.take(i as int),
            decreases self.inputs.len() - i,
        {
            inputs.push(self.inputs[i]);
            proof {
                assert(self.inputs@.take(i + 1) =~= self.inputs@.take(i as int).push(
                    self.inputs@[i as int],
                ));
            }
            i += 1;
        }
        let outputs = copy_outputs(self.outputs.as_slice());
        proof {
            assert(self.inputs@.take(i as int) =~= self.inputs@);
        }
        Transaction { inputs, outputs }
    }
}

/// A copy of a list of outputs.
pub fn copy_outputs(outputs: &[Output]) -> (r: Vec<Output>)
    ensures
        r@ == outputs@,
{
    let mut copy: Vec<Output> = Vec::new();
    let mut i: usize = 0;
    while i < outputs.len()
        invariant
            i <= outputs.len(),
            copy@ == outputs@.take(i as int),
        decreases outputs.len() - i,
    {
        copy.push(outputs[i]);
        proof {
            assert(outputs@.take(i + 1) =~= outputs@.take(i as int).push(outputs@[i as int]));
        }
        i += 1;
    }
    proof {
        assert(outputs@.take(i as int) =~= outputs@);
    }
    copy
}

/// Header of a sidechain block.
#[derive(Clone, Copy, Debug, PartialEq, Eq)]
pub struct Header {
    pub prev_side_block_hash: [u8; HASH_LENGTH],
    pub merkle_root: [u8; HASH_LENGTH],
}

/// How the parent chain treated a withdrawal bundle.
#[derive(Clone, Copy, Debug, PartialEq, Eq, Structural)]
pub enum WithdrawalBundleEventType {
    Submitted,
    Succeeded,
    Failed,
}

#[derive(Clone, Copy, Debug, PartialEq, Eq)]
pub struct WithdrawalBundleEvent {
    pub withdrawal_bundle_event_type: WithdrawalBundleEventType,
    /// Identifier of the bundle on the parent chain.
    pub m6id: [u8; HASH_LENGTH],
}

/// Value that the parent chain credits to a sidechain address.
#[derive(Clone, Copy, Debug, PartialEq, Eq)]
pub struct Deposit {
    pub sequence_number: u64,
    pub address: [u8; ADDRESS_LENGTH],
    pub value: u64,
}

impl Deposit {
    pub open spec fn spec_outpoint(self) -> OutPoint {
        OutPoint::Deposit { sequence_number: self.sequence_number }
    }

    pub open spec fn spec_output(self) -> Output {
        Output::Regular { address: self.address, value: self.value }
    }

    /// The outpoint under which the deposit is spendable.
    pub fn outpoint(&self) -> (r: OutPoint)
        ensures
            r == self.spec_outpoint(),
    {
        OutPoint::Deposit { sequence_number: self.sequence_number }
    }

    /// The output that the deposit credits.
    pub fn output(&self) -> (r: Output)
        ensures
            r == self.spec_output(),
    {
        Output::Regular { address: self.address, value: self.value }
    }
}

/// What one block of the parent chain means to the sidechain.
#[derive(Clone, Debug, PartialEq, Eq)]
pub struct MainBlock {
    pub block_height: u32,
    pub block_hash: [u8; HASH_LENGTH],
    pub deposits: Vec<Deposit>,
    pub withdrawal_bundle_event: Option<WithdrawalBundleEvent>,
    pub bmm_hashes: Vec<[u8; HASH_LENGTH]>,
}

} // verus!
