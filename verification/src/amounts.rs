//! Sums of amounts, as mathematical naturals, and their bounded
//! computation in 64 bits.

use vstd::prelude::*;
use crate::types::Output;

verus! {

/// The sum of a sequence of amounts.
pub open spec fn total(s: Seq<nat>) -> nat
    decreases s.len(),
{
    if s.len() == 0 {
        0
    } else {
        total(s.drop_last()) + s.last()
    }
}

pub proof fn lemma_total_take_succ(s: Seq<nat>, i: int)
    requires
        0 <= i < s.len(),
    ensures
        total(s.take(i + 1)) == total(s.take(i)) + s[i],
{
    assert(s.take(i + 1).drop_last() =~= s.take(i));
}

/// A prefix never sums to more than the whole.
pub proof fn lemma_total_take_le(s: Seq<nat>, i: int)
    requires
        0 <= i <= s.len(),
    ensures
        total(s.take(i)) <= total(s),
    decreases s.len(),
{
    if i == s.len() {
        assert(s.take(i) =~= s);
    } else {
        lemma_total_take_le(s.drop_last(), i);
        assert(s.drop_last().take(i) =~= s.take(i));
    }
}

/// The total value of each output, in order.
pub open spec fn output_values(outputs: Seq<Output>) -> Seq<nat> {
    outputs.map_values(|o: Output| o.spec_total_value())
}

/// The sum of the total values of a list of outputs.
pub open spec fn outputs_value(outputs: Seq<Output>) -> nat {
    total(output_values(outputs))
}

/// Sums the total values of `outputs`, or says that the sum leaves 64 bits.
pub fn checked_outputs_value(outputs: &[Output]) -> (r: Option<u64>)
    ensures
        r == (if outputs_value(outputs@) <= u64::MAX {
            Some(outputs_value(outputs@) as u64)
        } else {
            None
        }),
{
    let ghost amounts = output_values(outputs@);
    let mut sum: u64 = 0;
    let mut i: usize = 0;
    proof {
        assert(amounts.take(0) =~= Seq::<nat>::empty());
    }
    while i < outputs.len()
        invariant
            i <= outputs.len(),
            amounts == output_values(outputs@),
            sum == total(amounts.take(i as int)),
        decreases outputs.len() - i,
    {
        proof {
            lemma_total_take_succ(amounts, i as int);
            lemma_total_take_le(amounts, i + 1);
        }
        let value = match outputs[i].checked_total_value() {
            Some(value) => value,
            None => {
                return None;
            },
        };
        sum = match sum.checked_add(value) {
            Some(sum) => sum,
            None => {
                return None;
            },
        };
        i += 1;
    }
    proof {
        assert(amounts.take(i as int) =~= amounts);
    }
    Some(sum)
}

} // verus!
