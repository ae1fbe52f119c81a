//! The parent-event adapter: turns what the parent chain's client
//! delivers, with its byte strings of any length and its numeric codes,
//! into the typed records of the data model.

use vstd::prelude::*;
use crate::decode::read_array;
use crate::types::{
    Deposit, MainBlock, WithdrawalBundleEvent, WithdrawalBundleEventType, ADDRESS_LENGTH,
    HASH_LENGTH,
};

verus! {

/// A deposit as the parent chain's client reports it.
#[derive(Clone, Debug, PartialEq, Eq)]
pub struct RawDeposit {
    pub sequence_number: u64,
    pub address: Vec<u8>,
    pub value: u64,
}

/// A verdict on a withdrawal bundle as the parent chain's client reports it.
#[derive(Clone, Debug, PartialEq, Eq)]
pub struct RawWithdrawalBundleEvent {
    pub withdrawal_bundle_event_type: i32,
    pub m6id: Vec<u8>,
}

/// A parent block as the parent chain's client reports it.
#[derive(Clone, Debug, PartialEq, Eq)]
pub struct RawMainBlock {
    pub block_height: u32,
    pub block_hash: Vec<u8>,
    pub deposits: Vec<RawDeposit>,
    pub withdrawal_bundle_event: Option<RawWithdrawalBundleEvent>,
    pub bmm_hashes: Vec<Vec<u8>>,
}

/// The 32 bytes of a hash, where `bytes` are 32.
pub fn hash_from_bytes(bytes: &[u8]) -> (r: Option<[u8; HASH_LENGTH]>)
    ensures
        match r {
            Some(hash) => hash@ == bytes@,
            None => bytes@.len() != HASH_LENGTH,
        },
{
    if bytes.len() != HASH_LENGTH {
        return None;
    }
    match read_array::<HASH_LENGTH>(bytes, 0) {
        Some((hash, _)) => {
            proof {
                assert(bytes@.subrange(0, HASH_LENGTH as int) =~= bytes@);
            }
            Some(hash)
        },
        None => None,
    }
}

/// The 20 bytes of an address, where `bytes` are 20.
pub fn address_from_bytes(bytes: &[u8]) -> (r: Option<[u8; ADDRESS_LENGTH]>)
    ensures
        match r {
            Some(address) => address@ == bytes@,
            None => bytes@.len() != ADDRESS_LENGTH,
        },
{
    if bytes.len() != ADDRESS_LENGTH {
        return None;
    }
    match read_array::<ADDRESS_LENGTH>(bytes, 0) {
        Some((address, _)) => {
            proof {
                assert(bytes@.subrange(0, ADDRESS_LENGTH as int) =~= bytes@);
            }
            Some(address)
        },
        None => None,
    }
}

/// The verdict that a numeric code stands for.
pub open spec fn spec_event_type(code: i32) -> Option<WithdrawalBundleEventType> {
    if code == 0 {
        Some(WithdrawalBundleEventType::Submitted)
    } else if code == 1 {
        Some(WithdrawalBundleEventType::Failed)
    } else if code == 2 {
        Some(WithdrawalBundleEventType::Succeeded)
    } else {
        None
    }
}

/// The verdict that a numeric code stands for: 0 submitted, 1 failed,
/// 2 succeeded.
pub fn event_type_from_code(code: i32) -> (r: Option<WithdrawalBundleEventType>)
    ensures
        r == spec_event_type(code),
{
    if code == 0 {
        Some(WithdrawalBundleEventType::Submitted)
    } else if code == 1 {
        Some(WithdrawalBundleEventType::Failed)
    } else if code == 2 {
        Some(WithdrawalBundleEventType::Succeeded)
    } else {
        None
    }
}

/// Whether a typed deposit says what a reported one says.
pub open spec fn deposit_matches(deposit: Deposit, raw: RawDeposit) -> bool {
    &&& deposit.sequence_number == raw.sequence_number
    &&& deposit.address@ == raw.address@
    &&& deposit.value == raw.value
}

/// Whether a typed verdict says what a reported one says.
pub open spec fn event_matches(
    event: Option<WithdrawalBundleEvent>,
    raw: Option<RawWithdrawalBundleEvent>,
) -> bool {
    match (event, raw) {
        (None, None) => true,
        (Some(event), Some(raw)) => Some(event.withdrawal_bundle_event_type) == spec_event_type(
            raw.withdrawal_bundle_event_type,
        ) && event.m6id@ == raw.m6id@,
        _ => false,
    }
}

/// Whether a reported verdict can be typed: its code is known and its
/// identifier has 32 bytes.
pub open spec fn event_typed(raw: Option<RawWithdrawalBundleEvent>) -> bool {
    match raw {
        None => true,
        Some(raw) => spec_event_type(raw.withdrawal_bundle_event_type) is Some && raw.m6id@.len()
            == HASH_LENGTH,
    }
}

/// Whether a reported parent block can be typed: every hash in it has 32
/// bytes, every address 20, and the verdict's code is known.
pub open spec fn typed(raw: RawMainBlock) -> bool {
    &&& raw.block_hash@.len() == HASH_LENGTH
    &&& forall|i: int|
        0 <= i < raw.deposits@.len() ==> (#[trigger] raw.deposits@[i]).address@.len()
            == ADDRESS_LENGTH
    &&& event_typed(raw.withdrawal_bundle_event)
    &&& forall|i: int|
        0 <= i < raw.bmm_hashes@.len() ==> (#[trigger] raw.bmm_hashes@[i])@.len() == HASH_LENGTH
}

/// Whether a typed parent block says what a reported one says.
pub open spec fn block_matches(block: MainBlock, raw: RawMainBlock) -> bool {
    &&& block.block_height == raw.block_height
    &&& block.block_hash@ == raw.block_hash@
    &&& block.deposits@.len() == raw.deposits@.len()
    &&& forall|i: int|
        0 <= i < raw.deposits@.len() ==> deposit_matches(
            #[trigger] block.deposits@[i],
            raw.deposits@[i],
        )
    &&& event_matches(block.withdrawal_bundle_event, raw.withdrawal_bundle_event)
    &&& block.bmm_hashes@.len() == raw.bmm_hashes@.len()
    &&& forall|i: int|
        0 <= i < raw.bmm_hashes@.len() ==> (#[trigger] block.bmm_hashes@[i])@
            == raw.bmm_hashes@[i]@
}

/// The typed deposit that a reported one stands for.
pub fn deposit_from_raw(raw: &RawDeposit) -> (r: Option<Deposit>)
    ensures
        match r {
            Some(deposit) => deposit_matches(deposit, *raw),
            None => raw.address@.len() != ADDRESS_LENGTH,
        },
{
    match address_from_bytes(raw.address.as_slice()) {
        Some(address) => Some(
            Deposit { sequence_number: raw.sequence_number, address, value: raw.value },
        ),
        None => None,
    }
}

/// The typed parent block that a reported one stands for.
pub fn main_block_from_raw(raw: &RawMainBlock) -> (r: Option<MainBlock>)
    ensures
        match r {
            Some(block) => typed(*raw) && block_matches(block, *raw),
            None => !typed(*raw),
        },
{
    let block_hash = match hash_from_bytes(raw.block_hash.as_slice()) {
        Some(hash) => hash,
        None => {
            return None;
        },
    };
    let mut deposits: Vec<Deposit> = Vec::new();
    let mut i: usize = 0;
    while i < raw.deposits.len()
        invariant
            i <= raw.deposits@.len(),
            deposits@.len() == i,
            forall|k: int|
                0 <= k < i ==> deposit_matches(#[trigger] deposits@[k], raw.deposits@[k]),
            forall|k: int|
                0 <= k < i ==> (#[trigger] raw.deposits@[k]).address@.len() == ADDRESS_LENGTH,
        decreases raw.deposits.len() - i,
    {
        match deposit_from_raw(&raw.deposits[i]) {
            Some(deposit) => {
                deposits.push(deposit);
            },
            None => {
                return None;
            },
        }
        i += 1;
    }
    let withdrawal_bundle_event = match &raw.withdrawal_bundle_event {
        None => None,
        Some(event) => {
            let withdrawal_bundle_event_type = match event_type_from_code(
                event.withdrawal_bundle_event_type,
            ) {
                Some(event_type) => event_type,
                None => {
                    return None;
                },
            };
            let m6id = match hash_from_bytes(event.m6id.as_slice()) {
                Some(m6id) => m6id,
                None => {
                    return None;
                },
            };
            Some(WithdrawalBundleEvent { withdrawal_bundle_event_type, m6id })
        },
    };
    let mut bmm_hashes: Vec<[u8; HASH_LENGTH]> = Vec::new();
    let mut i: usize = 0;
    while i < raw.bmm_hashes.len()
        invariant
            i <= raw.bmm_hashes@.len(),
            bmm_hashes@.len() == i,
            forall|k: int| 0 <= k < i ==> (#[trigger] bmm_hashes@[k])@ == raw.bmm_hashes@[k]@,
            forall|k: int|
                0 <= k < i ==> (#[trigger] raw.bmm_hashes@[k])@.len() == HASH_LENGTH,
        decreases raw.bmm_hashes.len() - i,
    {
        match hash_from_bytes(raw.bmm_hashes[i].as_slice()) {
            Some(hash) => {
                bmm_hashes.push(hash);
            },
            None => {
                return None;
            },
        }
        i += 1;
    }
    Some(
        MainBlock {
            block_height: raw.block_height,
            block_hash,
            deposits,
            withdrawal_bundle_event,
            bmm_hashes,
        },
    )
}

} // verus!
