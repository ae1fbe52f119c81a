//! The order in which unlocked withdrawals enter a bundle: by fee, lowest
//! first, and among equal fees by the canonical bytes of the outpoint.

use vstd::prelude::*;
use crate::codec::{encode_outpoint, serialize_outpoint};
use crate::decode::lemma_outpoint_injective;
use crate::types::OutPoint;

verus! {

/// Whether `a` comes before `b` in the order of dictionaries: at the first
/// position where they differ `a` has the smaller byte, or `a` is a proper
/// prefix of `b`.
pub open spec fn lex_less(a: Seq<u8>, b: Seq<u8>) -> bool
    decreases a.len(),
{
    if a.len() == 0 {
        b.len() > 0
    } else if b.len() == 0 {
        false
    } else if a[0] != b[0] {
        a[0] < b[0]
    } else {
        lex_less(a.drop_first(), b.drop_first())
    }
}

pub proof fn lemma_lex_less_transitive(a: Seq<u8>, b: Seq<u8>, c: Seq<u8>)
    requires
        lex_less(a, b),
        lex_less(b, c),
    ensures
        lex_less(a, c),
    decreases a.len(),
{
    if a.len() > 0 && b.len() > 0 && c.len() > 0 {
        if a[0] == b[0] && b[0] == c[0] {
            lemma_lex_less_transitive(a.drop_first(), b.drop_first(), c.drop_first());
        }
    }
}

pub proof fn lemma_lex_less_asymmetric(a: Seq<u8>, b: Seq<u8>)
    requires
        lex_less(a, b),
    ensures
        !lex_less(b, a),
    decreases a.len(),
{
    if a.len() > 0 && b.len() > 0 && a[0] == b[0] {
        lemma_lex_less_asymmetric(a.drop_first(), b.drop_first());
    }
}

/// Of two different byte strings one comes before the other.
pub proof fn lemma_lex_less_total(a: Seq<u8>, b: Seq<u8>)
    requires
        a != b,
    ensures
        lex_less(a, b) || lex_less(b, a),
    decreases a.len(),
{
    if a.len() > 0 && b.len() > 0 && a[0] == b[0] {
        if a.drop_first() == b.drop_first() {
            assert(a =~= seq![a[0]] + a.drop_first());
            assert(b =~= seq![b[0]] + b.drop_first());
        }
        lemma_lex_less_total(a.drop_first(), b.drop_first());
    } else if a.len() == 0 && b.len() == 0 {
        assert(a =~= b);
    }
}

/// Whether `a` comes before `b` in the order of dictionaries.
pub fn bytes_less(a: &[u8], b: &[u8]) -> (r: bool)
    ensures
        r == lex_less(a@, b@),
{
    let mut i: usize = 0;
    proof {
        assert(a@.skip(0) =~= a@);
        assert(b@.skip(0) =~= b@);
    }
    while i < a.len() && i < b.len()
        invariant
            i <= a.len(),
            i <= b.len(),
            lex_less(a@, b@) == lex_less(a@.skip(i as int), b@.skip(i as int)),
        decreases a.len() - i,
    {
        proof {
            assert(a@.skip(i as int).drop_first() =~= a@.skip(i + 1));
            assert(b@.skip(i as int).drop_first() =~= b@.skip(i + 1));
            assert(a@.skip(i as int)[0] == a@[i as int]);
            assert(b@.skip(i as int)[0] == b@[i as int]);
        }
        if a[i] != b[i] {
            return a[i] < b[i];
        }
        i += 1;
    }
    i < b.len()
}

/// Whether the withdrawal at `a`, paying `fee_a`, enters a bundle before
/// the one at `b`, paying `fee_b`.
pub open spec fn collected_before(fee_a: u64, a: OutPoint, fee_b: u64, b: OutPoint) -> bool {
    fee_a < fee_b || (fee_a == fee_b && lex_less(encode_outpoint(a), encode_outpoint(b)))
}

pub proof fn lemma_collected_before_transitive(
    fee_a: u64,
    a: OutPoint,
    fee_b: u64,
    b: OutPoint,
    fee_c: u64,
    c: OutPoint,
)
    requires
        collected_before(fee_a, a, fee_b, b),
        collected_before(fee_b, b, fee_c, c),
    ensures
        collected_before(fee_a, a, fee_c, c),
{
    if fee_a == fee_b && fee_b == fee_c {
        lemma_lex_less_transitive(encode_outpoint(a), encode_outpoint(b), encode_outpoint(c));
    }
}

pub proof fn lemma_collected_before_asymmetric(fee_a: u64, a: OutPoint, fee_b: u64, b: OutPoint)
    requires
        collected_before(fee_a, a, fee_b, b),
    ensures
        !collected_before(fee_b, b, fee_a, a),
{
    if fee_a == fee_b {
        lemma_lex_less_asymmetric(encode_outpoint(a), encode_outpoint(b));
    }
}

/// Of two withdrawals at different outpoints one enters a bundle before
/// the other.
pub proof fn lemma_collected_before_total(fee_a: u64, a: OutPoint, fee_b: u64, b: OutPoint)
    requires
        a != b,
    ensures
        collected_before(fee_a, a, fee_b, b) || collected_before(fee_b, b, fee_a, a),
{
    if fee_a == fee_b {
        if encode_outpoint(a) == encode_outpoint(b) {
            lemma_outpoint_injective(a, b);
        }
        lemma_lex_less_total(encode_outpoint(a), encode_outpoint(b));
    }
}

/// Whether the withdrawal at `a` enters a bundle before the one at `b`.
pub fn precedes(fee_a: u64, a: &OutPoint, fee_b: u64, b: &OutPoint) -> (r: bool)
    ensures
        r == collected_before(fee_a, *a, fee_b, *b),
{
    if fee_a != fee_b {
        return fee_a < fee_b;
    }
    let key_a = serialize_outpoint(a);
    let key_b = serialize_outpoint(b);
    bytes_less(key_a.as_slice(), key_b.as_slice())
}

} // verus!
