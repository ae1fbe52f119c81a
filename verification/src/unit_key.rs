//! The key of a table that holds a single value.

use vstd::prelude::*;

verus! {

/// Unit key. A store that cannot take keys of length zero gets it as a
/// single fixed byte.
#[derive(Clone, Copy, Debug, Eq, PartialEq, PartialOrd, Ord)]
pub struct UnitKey;

impl UnitKey {
    /// The bytes of the key: always the one byte 0.
    pub fn to_bytes(&self) -> (r: Vec<u8>)
        ensures
            r@ == seq![0u8],
    {
        let mut bytes: Vec<u8> = Vec::new();
        bytes.push(0x00);
        proof {
            assert(bytes@ =~= seq![0u8]);
        }
        bytes
    }

    /// The key, from any single byte.
    pub fn from_bytes(bytes: &[u8]) -> (r: Option<UnitKey>)
        ensures
            r is Some <==> bytes@.len() == 1,
    {
        if bytes.len() == 1 {
            Some(UnitKey)
        } else {
            None
        }
    }
}

} // verus!
