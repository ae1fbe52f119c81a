//! Reading values back from their canonical bytes.
//!
//! Each reader either gives the one value whose encoding stands at the
//! position read, or says that no value's encoding stands there.

use vstd::prelude::*;
use vstd::bytes::{
    lemma_auto_spec_u32_to_from_le_bytes, lemma_auto_spec_u64_to_from_le_bytes,
    spec_u32_from_le_bytes, spec_u32_to_le_bytes, spec_u64_from_le_bytes, spec_u64_to_le_bytes,
    u32_from_le_bytes, u64_from_le_bytes,
};
use vstd::slice::slice_subrange;
use crate::codec::{
    encode_block, encode_each, encode_header, encode_list, encode_outpoint, encode_output, encode_outpoints, encode_outputs,
    encode_transaction, encode_transactions, lemma_encode_each_push, outpoint_encoder,
    output_encoder, transaction_encoder, TAG_OUTPOINT_COINBASE, TAG_OUTPOINT_DEPOSIT,
    TAG_OUTPOINT_REGULAR, TAG_OUTPUT_REGULAR, TAG_OUTPUT_WITHDRAWAL,
};
use crate::types::{
    Header, OutPoint, Output, Transaction, TransactionView, transaction_views, ADDRESS_LENGTH,
    HASH_LENGTH,
};

verus! {

/// The length of the encoding of an outpoint.
pub open spec fn outpoint_size(outpoint: OutPoint) -> nat {
    match outpoint {
        OutPoint::Regular { .. } => 10,
        OutPoint::Deposit { .. } => 9,
        OutPoint::Coinbase { .. } => 6,
    }
}

/// The length of the encoding of an output.
pub open spec fn output_size(output: Output) -> nat {
    match output {
        Output::Regular { .. } => 29,
        Output::Withdrawal { .. } => 57,
    }
}

pub proof fn lemma_outpoint_shape(outpoint: OutPoint)
    ensures
        encode_outpoint(outpoint).len() == outpoint_size(outpoint),
        encode_outpoint(outpoint)[0] == (match outpoint {
            OutPoint::Regular { .. } => TAG_OUTPOINT_REGULAR,
            OutPoint::Deposit { .. } => TAG_OUTPOINT_DEPOSIT,
            OutPoint::Coinbase { .. } => TAG_OUTPOINT_COINBASE,
        }),
{
    lemma_auto_spec_u64_to_from_le_bytes();
    lemma_auto_spec_u32_to_from_le_bytes();
}

pub proof fn lemma_output_shape(output: Output)
    ensures
        encode_output(output).len() == output_size(output),
        encode_output(output)[0] == (match output {
            Output::Regular { .. } => TAG_OUTPUT_REGULAR,
            Output::Withdrawal { .. } => TAG_OUTPUT_WITHDRAWAL,
        }),
{
    lemma_auto_spec_u64_to_from_le_bytes();
}

/// Two 64-bit numbers with the same bytes are the same number.
pub proof fn lemma_u64_bytes_injective(a: u64, b: u64)
    requires
        spec_u64_to_le_bytes(a) == spec_u64_to_le_bytes(b),
    ensures
        a == b,
{
    lemma_auto_spec_u64_to_from_le_bytes();
    assert(spec_u64_from_le_bytes(spec_u64_to_le_bytes(a)) == a);
    assert(spec_u64_from_le_bytes(spec_u64_to_le_bytes(b)) == b);
}

/// Two 32-bit numbers with the same bytes are the same number.
pub proof fn lemma_u32_bytes_injective(a: u32, b: u32)
    requires
        spec_u32_to_le_bytes(a) == spec_u32_to_le_bytes(b),
    ensures
        a == b,
{
    lemma_auto_spec_u32_to_from_le_bytes();
    assert(spec_u32_to_le_bytes(a).len() == 4);
    assert(spec_u32_to_le_bytes(b).len() == 4);
    assert(spec_u32_from_le_bytes(spec_u32_to_le_bytes(a)) == a);
    assert(spec_u32_from_le_bytes(spec_u32_to_le_bytes(b)) == b);
}

/// Two outpoints with the same encoding are the same outpoint.
pub proof fn lemma_outpoint_injective(x: OutPoint, y: OutPoint)
    requires
        encode_outpoint(x) == encode_outpoint(y),
    ensures
        x == y,
{
    lemma_outpoint_shape(x);
    lemma_outpoint_shape(y);
    lemma_auto_spec_u64_to_from_le_bytes();
    lemma_auto_spec_u32_to_from_le_bytes();
    let ex = encode_outpoint(x);
    let ey = encode_outpoint(y);
    match (x, y) {
        (
            OutPoint::Regular { transaction_number, output_number },
            OutPoint::Regular { transaction_number: other, output_number: other_output },
        ) => {
            assert(ex.subrange(1, 9) =~= spec_u64_to_le_bytes(transaction_number));
            assert(ey.subrange(1, 9) =~= spec_u64_to_le_bytes(other));
            lemma_u64_bytes_injective(transaction_number, other);
            assert(ex[9] == output_number);
            assert(ey[9] == other_output);
        },
        (OutPoint::Deposit { sequence_number }, OutPoint::Deposit { sequence_number: other }) => {
            assert(ex.subrange(1, 9) =~= spec_u64_to_le_bytes(sequence_number));
            assert(ey.subrange(1, 9) =~= spec_u64_to_le_bytes(other));
            lemma_u64_bytes_injective(sequence_number, other);
        },
        (
            OutPoint::Coinbase { block_number, output_number },
            OutPoint::Coinbase { block_number: other, output_number: other_output },
        ) => {
            assert(ex.subrange(1, 5) =~= spec_u32_to_le_bytes(block_number));
            assert(ey.subrange(1, 5) =~= spec_u32_to_le_bytes(other));
            lemma_u32_bytes_injective(block_number, other);
            assert(ex[5] == output_number);
            assert(ey[5] == other_output);
        },
        _ => {
            assert(ex[0] != ey[0]);
        },
    }
}

/// Of the encodings of two different outpoints neither starts the other:
/// where both start one byte string, the outpoints are the same.
pub proof fn lemma_outpoint_unique(x: OutPoint, y: OutPoint, s: Seq<u8>)
    requires
        encode_outpoint(x).is_prefix_of(s),
        encode_outpoint(y).is_prefix_of(s),
    ensures
        x == y,
{
    lemma_outpoint_shape(x);
    lemma_outpoint_shape(y);
    let ex = encode_outpoint(x);
    let ey = encode_outpoint(y);
    assert(ex[0] == s[0]);
    assert(ey[0] == s[0]);
    assert(ex.len() == ey.len());
    assert(ex =~= ey);
    lemma_outpoint_injective(x, y);
}

/// Two outputs with the same encoding are the same output.
pub proof fn lemma_output_injective(x: Output, y: Output)
    requires
        encode_output(x) == encode_output(y),
    ensures
        x == y,
{
    lemma_output_shape(x);
    lemma_output_shape(y);
    lemma_auto_spec_u64_to_from_le_bytes();
    let ex = encode_output(x);
    let ey = encode_output(y);
    match (x, y) {
        (
            Output::Regular { address, value },
            Output::Regular { address: other_address, value: other_value },
        ) => {
            assert(ex.subrange(1, 21) =~= address@);
            assert(ey.subrange(1, 21) =~= other_address@);
            assert(address =~= other_address);
            assert(ex.subrange(21, 29) =~= spec_u64_to_le_bytes(value));
            assert(ey.subrange(21, 29) =~= spec_u64_to_le_bytes(other_value));
            lemma_u64_bytes_injective(value, other_value);
        },
        (
            Output::Withdrawal { address, main_address, value, fee },
            Output::Withdrawal {
                address: other_address,
                main_address: other_main,
                value: other_value,
                fee: other_fee,
            },
        ) => {
            assert(ex.subrange(1, 21) =~= address@);
            assert(ey.subrange(1, 21) =~= other_address@);
            assert(address =~= other_address);
            assert(ex.subrange(21, 41) =~= main_address@);
            assert(ey.subrange(21, 41) =~= other_main@);
            assert(main_address =~= other_main);
            assert(ex.subrange(41, 49) =~= spec_u64_to_le_bytes(value));
            assert(ey.subrange(41, 49) =~= spec_u64_to_le_bytes(other_value));
            lemma_u64_bytes_injective(value, other_value);
            assert(ex.subrange(49, 57) =~= spec_u64_to_le_bytes(fee));
            assert(ey.subrange(49, 57) =~= spec_u64_to_le_bytes(other_fee));
            lemma_u64_bytes_injective(fee, other_fee);
        },
        _ => {
            assert(ex[0] != ey[0]);
        },
    }
}

/// Where the encodings of two outputs start one byte string, the outputs
/// are the same.
pub proof fn lemma_output_unique(x: Output, y: Output, s: Seq<u8>)
    requires
        encode_output(x).is_prefix_of(s),
        encode_output(y).is_prefix_of(s),
    ensures
        x == y,
{
    lemma_output_shape(x);
    lemma_output_shape(y);
    let ex = encode_output(x);
    let ey = encode_output(y);
    assert(ex[0] == s[0]);
    assert(ey[0] == s[0]);
    assert(ex.len() == ey.len());
    assert(ex =~= ey);
    lemma_output_injective(x, y);
}

/// Reads a 64-bit number at `pos`.
pub fn read_u64(bytes: &[u8], pos: usize) -> (r: Option<(u64, usize)>)
    requires
        pos <= bytes@.len(),
    ensures
        match r {
            Some((value, next)) => next == pos + 8 && next <= bytes@.len() && bytes@.subrange(
                pos as int,
                next as int,
            ) == spec_u64_to_le_bytes(value),
            None => bytes@.len() - pos < 8,
        },
{
    if bytes.len() - pos < 8 {
        return None;
    }
    let value = u64_from_le_bytes(slice_subrange(bytes, pos, pos + 8));
    proof {
        lemma_auto_spec_u64_to_from_le_bytes();
    }
    Some((value, pos + 8))
}

/// Reads a 32-bit number at `pos`.
pub fn read_u32(bytes: &[u8], pos: usize) -> (r: Option<(u32, usize)>)
    requires
        pos <= bytes@.len(),
    ensures
        match r {
            Some((value, next)) => next == pos + 4 && next <= bytes@.len() && bytes@.subrange(
                pos as int,
                next as int,
            ) == spec_u32_to_le_bytes(value),
            None => bytes@.len() - pos < 4,
        },
{
    if bytes.len() - pos < 4 {
        return None;
    }
    let value = u32_from_le_bytes(slice_subrange(bytes, pos, pos + 4));
    proof {
        lemma_auto_spec_u32_to_from_le_bytes();
    }
    Some((value, pos + 4))
}

/// Reads `N` bytes at `pos`.
pub fn read_array<const N: usize>(bytes: &[u8], pos: usize) -> (r: Option<([u8; N], usize)>)
    requires
        pos <= bytes@.len(),
    ensures
        match r {
            Some((array, next)) => next == pos + N && next <= bytes@.len() && bytes@.subrange(
                pos as int,
                next as int,
            ) == array@,
            None => bytes@.len() - pos < N,
        },
{
    if bytes.len() - pos < N {
        return None;
    }
    let mut array = [0u8; N];
    let mut i: usize = 0;
    while i < N
        invariant
            i <= N,
            pos + N <= bytes@.len(),
            bytes@.len() <= usize::MAX,
            forall|k: int| 0 <= k < i ==> array@[k] == bytes@[pos + k],
        decreases N - i,
    {
        array[i] = bytes[pos + i];
        i += 1;
    }
    proof {
        assert(bytes@.subrange(pos as int, pos + N) =~= array@);
    }
    Some((array, pos + N))
}

/// Reads an outpoint at `pos`.
pub fn read_outpoint(bytes: &[u8], pos: usize) -> (r: Option<(OutPoint, usize)>)
    requires
        pos <= bytes@.len(),
    ensures
        match r {
            Some((outpoint, next)) => pos <= next <= bytes@.len() && bytes@.subrange(
                pos as int,
                next as int,
            ) == encode_outpoint(outpoint),
            None => forall|p: OutPoint| !(#[trigger] encode_outpoint(p)).is_prefix_of(
                bytes@.skip(pos as int),
            ),
        },
{
    let ghost rest = bytes@.skip(pos as int);
    proof {
        assert forall|p: OutPoint| (#[trigger] encode_outpoint(p)).is_prefix_of(rest) implies rest.len()
            >= outpoint_size(p) && rest[0] == encode_outpoint(p)[0] by {
            lemma_outpoint_shape(p);
            assert(encode_outpoint(p)[0] == rest.subrange(0, encode_outpoint(p).len() as int)[0]);
        }
    }
    if pos >= bytes.len() {
        proof {
            assert forall|p: OutPoint| !(#[trigger] encode_outpoint(p)).is_prefix_of(rest) by {
                lemma_outpoint_shape(p);
            }
        }
        return None;
    }
    let tag = bytes[pos];
    assert(rest[0] == tag);
    if tag == TAG_OUTPOINT_REGULAR {
        let (transaction_number, at) = match read_u64(bytes, pos + 1) {
            Some(read) => read,
            None => {
                proof {
                    assert forall|p: OutPoint| !(#[trigger] encode_outpoint(p)).is_prefix_of(rest) by {
                        lemma_outpoint_shape(p);
                    }
                }
                return None;
            },
        };
        if at >= bytes.len() {
            proof {
                assert forall|p: OutPoint| !(#[trigger] encode_outpoint(p)).is_prefix_of(rest) by {
                    lemma_outpoint_shape(p);
                }
            }
            return None;
        }
        let output_number = bytes[at];
        proof {
            assert(bytes@.subrange(pos as int, at + 1) =~= seq![TAG_OUTPOINT_REGULAR]
                + bytes@.subrange(pos + 1, at as int) + seq![output_number]);
        }
        Some((OutPoint::Regular { transaction_number, output_number }, at + 1))
    } else if tag == TAG_OUTPOINT_DEPOSIT {
        let (sequence_number, at) = match read_u64(bytes, pos + 1) {
            Some(read) => read,
            None => {
                proof {
                    assert forall|p: OutPoint| !(#[trigger] encode_outpoint(p)).is_prefix_of(rest) by {
                        lemma_outpoint_shape(p);
                    }
                }
                return None;
            },
        };
        proof {
            assert(bytes@.subrange(pos as int, at as int) =~= seq![TAG_OUTPOINT_DEPOSIT]
                + bytes@.subrange(pos + 1, at as int));
        }
        Some((OutPoint::Deposit { sequence_number }, at))
    } else if tag == TAG_OUTPOINT_COINBASE {
        let (block_number, at) = match read_u32(bytes, pos + 1) {
            Some(read) => read,
            None => {
                proof {
                    assert forall|p: OutPoint| !(#[trigger] encode_outpoint(p)).is_prefix_of(rest) by {
                        lemma_outpoint_shape(p);
                    }
                }
                return None;
            },
        };
        if at >= bytes.len() {
            proof {
                assert forall|p: OutPoint| !(#[trigger] encode_outpoint(p)).is_prefix_of(rest) by {
                    lemma_outpoint_shape(p);
                }
            }
            return None;
        }
        let output_number = bytes[at];
        proof {
            assert(bytes@.subrange(pos as int, at + 1) =~= seq![TAG_OUTPOINT_COINBASE]
                + bytes@.subrange(pos + 1, at as int) + seq![output_number]);
        }
        Some((OutPoint::Coinbase { block_number, output_number }, at + 1))
    } else {
        proof {
            assert forall|p: OutPoint| !(#[trigger] encode_outpoint(p)).is_prefix_of(rest) by {
                lemma_outpoint_shape(p);
            }
        }
        None
    }
}

/// Reads an output at `pos`.
pub fn read_output(bytes: &[u8], pos: usize) -> (r: Option<(Output, usize)>)
    requires
        pos <= bytes@.len(),
    ensures
        match r {
            Some((output, next)) => pos <= next <= bytes@.len() && bytes@.subrange(
                pos as int,
                next as int,
            ) == encode_output(output),
            None => forall|o: Output| !(#[trigger] encode_output(o)).is_prefix_of(
                bytes@.skip(pos as int),
            ),
        },
{
    let ghost rest = bytes@.skip(pos as int);
    proof {
        assert forall|o: Output| (#[trigger] encode_output(o)).is_prefix_of(rest) implies rest.len()
            >= output_size(o) && rest[0] == encode_output(o)[0] by {
            lemma_output_shape(o);
            assert(encode_output(o)[0] == rest.subrange(0, encode_output(o).len() as int)[0]);
        }
    }
    if pos >= bytes.len() {
        proof {
            assert forall|o: Output| !(#[trigger] encode_output(o)).is_prefix_of(rest) by {
                lemma_output_shape(o);
            }
        }
        return None;
    }
    let tag = bytes[pos];
    assert(rest[0] == tag);
    if tag != TAG_OUTPUT_REGULAR && tag != TAG_OUTPUT_WITHDRAWAL {
        proof {
            assert forall|o: Output| !(#[trigger] encode_output(o)).is_prefix_of(rest) by {
                lemma_output_shape(o);
            }
        }
        return None;
    }
    let needed: usize = if tag == TAG_OUTPUT_REGULAR {
        29
    } else {
        57
    };
    if bytes.len() - pos < needed {
        proof {
            assert forall|o: Output| !(#[trigger] encode_output(o)).is_prefix_of(rest) by {
                lemma_output_shape(o);
            }
        }
        return None;
    }
    let (address, at) = match read_array::<ADDRESS_LENGTH>(bytes, pos + 1) {
        Some(read) => read,
        None => {
            proof {
                assert(false);
            }
            return None;
        },
    };
    if tag == TAG_OUTPUT_REGULAR {
        let (value, end) = match read_u64(bytes, at) {
            Some(read) => read,
            None => {
                proof {
                    assert(false);
                }
                return None;
            },
        };
        proof {
            assert(bytes@.subrange(pos as int, end as int) =~= seq![TAG_OUTPUT_REGULAR]
                + bytes@.subrange(pos + 1, at as int) + bytes@.subrange(at as int, end as int));
        }
        Some((Output::Regular { address, value }, end))
    } else {
        let (main_address, at_value) = match read_array::<ADDRESS_LENGTH>(bytes, at) {
            Some(read) => read,
            None => {
                proof {
                    assert(false);
                }
                return None;
            },
        };
        let (value, at_fee) = match read_u64(bytes, at_value) {
            Some(read) => read,
            None => {
                proof {
                    assert(false);
                }
                return None;
            },
        };
        let (fee, end) = match read_u64(bytes, at_fee) {
            Some(read) => read,
            None => {
                proof {
                    assert(false);
                }
                return None;
            },
        };
        proof {
            assert(bytes@.subrange(pos as int, end as int) =~= seq![TAG_OUTPUT_WITHDRAWAL]
                + bytes@.subrange(pos + 1, at as int) + bytes@.subrange(at as int, at_value as int)
                + bytes@.subrange(at_value as int, at_fee as int) + bytes@.subrange(
                at_fee as int,
                end as int,
            ));
        }
        Some((Output::Withdrawal { address, main_address, value, fee }, end))
    }
}

/// Whether `encode` is a prefix code on the values that meet `valid`:
/// where the encodings of two of them start one byte string, the two are
/// the same.
pub open spec fn prefix_code<T>(encode: spec_fn(T) -> Seq<u8>, valid: spec_fn(T) -> bool) -> bool {
    forall|x: T, y: T, s: Seq<u8>|
        valid(x) && valid(y) && #[trigger] encode(x).is_prefix_of(s) && #[trigger] encode(
            y,
        ).is_prefix_of(s) ==> x == y
}

pub open spec fn all_valid<T>(items: Seq<T>, valid: spec_fn(T) -> bool) -> bool {
    forall|i: int| 0 <= i < items.len() ==> valid(#[trigger] items[i])
}

/// The encoding of a list is that of its first `i` elements followed by
/// that of the others.
pub proof fn lemma_encode_each_split<T>(items: Seq<T>, i: int, encode: spec_fn(T) -> Seq<u8>)
    requires
        0 <= i <= items.len(),
    ensures
        encode_each(items, encode) == encode_each(items.take(i), encode) + encode_each(
            items.skip(i),
            encode,
        ),
    decreases items.len(),
{
    if i == 0 {
        assert(items.take(0) =~= Seq::<T>::empty());
        assert(items.skip(0) =~= items);
        assert(encode_each(items.take(0), encode) =~= Seq::<u8>::empty());
        assert(encode_each(items, encode) =~= Seq::<u8>::empty() + encode_each(items, encode));
    } else {
        let rest = items.drop_first();
        lemma_encode_each_split(rest, i - 1, encode);
        assert(items.take(i).first() == items.first());
        assert(items.take(i).drop_first() =~= rest.take(i - 1));
        assert(items.skip(i) =~= rest.skip(i - 1));
        assert(encode(items.first()) + (encode_each(rest.take(i - 1), encode) + encode_each(
            rest.skip(i - 1),
            encode,
        )) =~= (encode(items.first()) + encode_each(rest.take(i - 1), encode)) + encode_each(
            rest.skip(i - 1),
            encode,
        ));
    }
}

/// Where the encodings of the elements of two lists start one byte string,
/// the shorter list is the start of the longer.
pub proof fn lemma_each_unique<T>(
    x: Seq<T>,
    y: Seq<T>,
    s: Seq<u8>,
    encode: spec_fn(T) -> Seq<u8>,
    valid: spec_fn(T) -> bool,
)
    requires
        prefix_code(encode, valid),
        all_valid(x, valid),
        all_valid(y, valid),
        x.len() <= y.len(),
        encode_each(x, encode).is_prefix_of(s),
        encode_each(y, encode).is_prefix_of(s),
    ensures
        x == y.take(x.len() as int),
    decreases x.len(),
{
    if x.len() == 0 {
        assert(x =~= y.take(0));
    } else {
        let ex = encode(x.first());
        let ey = encode(y.first());
        let rx = encode_each(x.drop_first(), encode);
        let ry = encode_each(y.drop_first(), encode);
        assert(encode_each(x, encode) == ex + rx);
        assert(encode_each(y, encode) == ey + ry);
        assert(ex.is_prefix_of(s)) by {
            assert(ex =~= (ex + rx).subrange(0, ex.len() as int));
            assert(ex =~= s.subrange(0, ex.len() as int));
        }
        assert(ey.is_prefix_of(s)) by {
            assert(ey =~= (ey + ry).subrange(0, ey.len() as int));
            assert(ey =~= s.subrange(0, ey.len() as int));
        }
        assert(valid(x.first()) && valid(y.first())) by {
            assert(valid(x[0]));
            assert(valid(y[0]));
        }
        assert(x.first() == y.first());
        let tail = s.skip(ex.len() as int);
        assert(rx.is_prefix_of(tail)) by {
            assert(rx =~= (ex + rx).subrange(ex.len() as int, (ex + rx).len() as int));
            assert(rx =~= tail.subrange(0, rx.len() as int));
        }
        assert(ry.is_prefix_of(tail)) by {
            assert(ry =~= (ey + ry).subrange(ey.len() as int, (ey + ry).len() as int));
            assert(ry =~= tail.subrange(0, ry.len() as int));
        }
        assert(all_valid(x.drop_first(), valid)) by {
            assert forall|i: int| 0 <= i < x.drop_first().len() implies valid(
                #[trigger] x.drop_first()[i],
            ) by {
                assert(valid(x[i + 1]));
            }
        }
        assert(all_valid(y.drop_first(), valid)) by {
            assert forall|i: int| 0 <= i < y.drop_first().len() implies valid(
                #[trigger] y.drop_first()[i],
            ) by {
                assert(valid(y[i + 1]));
            }
        }
        lemma_each_unique(x.drop_first(), y.drop_first(), tail, encode, valid);
        assert(x =~= y.take(x.len() as int)) by {
            assert forall|i: int| 0 <= i < x.len() implies x[i] == y[i] by {
                if i > 0 {
                    assert(x.drop_first()[i - 1] == y.drop_first().take(x.len() - 1)[i - 1]);
                }
            }
        }
    }
}

/// Where a list of `count` elements is encoded at the start of `rest`,
/// and `got` holds fewer elements that were read there, `got` is the
/// start of that list, and the list's next element is encoded where the
/// reading stopped.
pub proof fn lemma_list_continues<T>(
    rest: Seq<u8>,
    count: u64,
    got: Seq<T>,
    items: Seq<T>,
    encode: spec_fn(T) -> Seq<u8>,
    valid: spec_fn(T) -> bool,
)
    requires
        prefix_code(encode, valid),
        all_valid(got, valid),
        all_valid(items, valid),
        items.len() <= u64::MAX,
        got.len() < count,
        rest.len() >= 8,
        rest.subrange(0, 8) == spec_u64_to_le_bytes(count),
        encode_each(got, encode).is_prefix_of(rest.skip(8)),
        encode_list(items, encode).is_prefix_of(rest),
    ensures
        items.len() == count,
        got == items.take(got.len() as int),
        encode(items[got.len() as int]).is_prefix_of(
            rest.skip(8 + encode_each(got, encode).len() as int),
        ),
{
    lemma_auto_spec_u64_to_from_le_bytes();
    let prefix = spec_u64_to_le_bytes(items.len() as u64);
    let body = encode_each(items, encode);
    assert(prefix =~= (prefix + body).subrange(0, 8));
    assert(prefix =~= rest.subrange(0, 8));
    lemma_u64_bytes_injective(items.len() as u64, count);
    let tail = rest.skip(8);
    assert(body.is_prefix_of(tail)) by {
        assert(body =~= (prefix + body).subrange(8, (prefix + body).len() as int));
        assert(body =~= tail.subrange(0, body.len() as int));
    }
    lemma_each_unique(got, items, tail, encode, valid);
    let n = got.len() as int;
    lemma_encode_each_split(items, n, encode);
    let head = encode_each(items.take(n), encode);
    let others = encode_each(items.skip(n), encode);
    let next = encode(items[n]);
    assert(items.skip(n).first() == items[n]);
    assert(others == next + encode_each(items.skip(n).drop_first(), encode));
    assert(next.is_prefix_of(rest.skip(8 + head.len() as int))) by {
        assert(next =~= others.subrange(0, next.len() as int));
        assert(others =~= body.subrange(head.len() as int, body.len() as int));
        assert(next =~= rest.skip(8 + head.len() as int).subrange(0, next.len() as int));
    }
}

/// Where the encodings of two lists start one byte string, the lists are
/// the same.
pub proof fn lemma_list_unique<T>(
    x: Seq<T>,
    y: Seq<T>,
    s: Seq<u8>,
    encode: spec_fn(T) -> Seq<u8>,
    valid: spec_fn(T) -> bool,
)
    requires
        prefix_code(encode, valid),
        all_valid(x, valid),
        all_valid(y, valid),
        x.len() <= u64::MAX,
        y.len() <= u64::MAX,
        encode_list(x, encode).is_prefix_of(s),
        encode_list(y, encode).is_prefix_of(s),
    ensures
        x == y,
{
    lemma_auto_spec_u64_to_from_le_bytes();
    let px = spec_u64_to_le_bytes(x.len() as u64);
    let py = spec_u64_to_le_bytes(y.len() as u64);
    let bx = encode_each(x, encode);
    let by_ = encode_each(y, encode);
    assert(px =~= (px + bx).subrange(0, 8));
    assert(py =~= (py + by_).subrange(0, 8));
    assert(px =~= s.subrange(0, 8));
    assert(py =~= s.subrange(0, 8));
    lemma_u64_bytes_injective(x.len() as u64, y.len() as u64);
    let tail = s.skip(8);
    assert(bx.is_prefix_of(tail)) by {
        assert(bx =~= (px + bx).subrange(8, (px + bx).len() as int));
        assert(bx =~= tail.subrange(0, bx.len() as int));
    }
    assert(by_.is_prefix_of(tail)) by {
        assert(by_ =~= (py + by_).subrange(8, (py + by_).len() as int));
        assert(by_ =~= tail.subrange(0, by_.len() as int));
    }
    lemma_each_unique(x, y, tail, encode, valid);
    assert(y.take(x.len() as int) =~= y);
}

/// Every outpoint.
pub open spec fn any_outpoint() -> spec_fn(OutPoint) -> bool {
    |p: OutPoint| true
}

/// Every output.
pub open spec fn any_output() -> spec_fn(Output) -> bool {
    |o: Output| true
}

/// Whether the lengths of the lists of `transaction` fit in 64 bits, as
/// those of every transaction in memory do.
pub open spec fn sized(transaction: TransactionView) -> bool {
    transaction.inputs.len() <= u64::MAX && transaction.outputs.len() <= u64::MAX
}

/// The transactions whose lists have lengths that fit in 64 bits.
pub open spec fn sized_transaction() -> spec_fn(TransactionView) -> bool {
    |t: TransactionView| sized(t)
}

pub proof fn lemma_outpoint_prefix_code()
    ensures
        prefix_code(outpoint_encoder(), any_outpoint()),
{
    let encode = outpoint_encoder();
    assert forall|x: OutPoint, y: OutPoint, s: Seq<u8>|
        #[trigger] encode(x).is_prefix_of(s) && #[trigger] encode(y).is_prefix_of(s) implies x
        == y by {
        lemma_outpoint_unique(x, y, s);
    }
}

pub proof fn lemma_output_prefix_code()
    ensures
        prefix_code(output_encoder(), any_output()),
{
    let encode = output_encoder();
    assert forall|x: Output, y: Output, s: Seq<u8>|
        #[trigger] encode(x).is_prefix_of(s) && #[trigger] encode(y).is_prefix_of(s) implies x
        == y by {
        lemma_output_unique(x, y, s);
    }
}

/// Where the encodings of two transactions start one byte string, the
/// transactions are the same.
pub proof fn lemma_transaction_unique(x: TransactionView, y: TransactionView, s: Seq<u8>)
    requires
        sized(x),
        sized(y),
        encode_transaction(x).is_prefix_of(s),
        encode_transaction(y).is_prefix_of(s),
    ensures
        x == y,
{
    lemma_outpoint_prefix_code();
    lemma_output_prefix_code();
    let ix = encode_outpoints(x.inputs);
    let iy = encode_outpoints(y.inputs);
    let ox = encode_outputs(x.outputs);
    let oy = encode_outputs(y.outputs);
    assert(ix.is_prefix_of(s)) by {
        assert(ix =~= (ix + ox).subrange(0, ix.len() as int));
        assert(ix =~= s.subrange(0, ix.len() as int));
    }
    assert(iy.is_prefix_of(s)) by {
        assert(iy =~= (iy + oy).subrange(0, iy.len() as int));
        assert(iy =~= s.subrange(0, iy.len() as int));
    }
    lemma_list_unique(x.inputs, y.inputs, s, outpoint_encoder(), any_outpoint());
    let tail = s.skip(ix.len() as int);
    assert(ox.is_prefix_of(tail)) by {
        assert(ox =~= (ix + ox).subrange(ix.len() as int, (ix + ox).len() as int));
        assert(ox =~= tail.subrange(0, ox.len() as int));
    }
    assert(oy.is_prefix_of(tail)) by {
        assert(oy =~= (iy + oy).subrange(iy.len() as int, (iy + oy).len() as int));
        assert(oy =~= tail.subrange(0, oy.len() as int));
    }
    lemma_list_unique(x.outputs, y.outputs, tail, output_encoder(), any_output());
}

pub proof fn lemma_transaction_prefix_code()
    ensures
        prefix_code(transaction_encoder(), sized_transaction()),
{
    let encode = transaction_encoder();
    let valid = sized_transaction();
    assert forall|x: TransactionView, y: TransactionView, s: Seq<u8>|
        valid(x) && valid(y) && #[trigger] encode(x).is_prefix_of(s) && #[trigger] encode(
            y,
        ).is_prefix_of(s) implies x == y by {
        lemma_transaction_unique(x, y, s);
    }
}

/// Two transactions with the same encoding are the same transaction.
pub proof fn lemma_transaction_injective(x: TransactionView, y: TransactionView)
    requires
        sized(x),
        sized(y),
        encode_transaction(x) == encode_transaction(y),
    ensures
        x == y,
{
    let s = encode_transaction(x);
    assert(s.is_prefix_of(s)) by {
        assert(s =~= s.subrange(0, s.len() as int));
    }
    lemma_transaction_unique(x, y, s);
}

/// A list's encoding holds at least the eight bytes of its length.
pub proof fn lemma_list_length<T>(items: Seq<T>, encode: spec_fn(T) -> Seq<u8>)
    ensures
        encode_list(items, encode).len() >= 8,
        encode_list(items, encode).subrange(0, 8) == spec_u64_to_le_bytes(items.len() as u64),
{
    lemma_auto_spec_u64_to_from_le_bytes();
    assert(encode_list(items, encode).subrange(0, 8) =~= spec_u64_to_le_bytes(items.len() as u64));
}

/// Reads a list of outpoints at `pos`.
pub fn read_outpoints(bytes: &[u8], pos: usize) -> (r: Option<(Vec<OutPoint>, usize)>)
    requires
        pos <= bytes@.len(),
    ensures
        match r {
            Some((items, next)) => pos <= next <= bytes@.len() && bytes@.subrange(
                pos as int,
                next as int,
            ) == encode_outpoints(items@),
            None => forall|list: Seq<OutPoint>|
                list.len() <= u64::MAX ==> !(#[trigger] encode_outpoints(list)).is_prefix_of(
                    bytes@.skip(pos as int),
                ),
        },
{
    let ghost rest = bytes@.skip(pos as int);
    let ghost encode = outpoint_encoder();
    let ghost valid = any_outpoint();
    let (count, start) = match read_u64(bytes, pos) {
        Some(read) => read,
        None => {
            proof {
                assert forall|list: Seq<OutPoint>| list.len() <= u64::MAX implies !(
                #[trigger] encode_outpoints(list)).is_prefix_of(rest) by {
                    lemma_list_length(list, encode);
                }
            }
            return None;
        },
    };
    let mut items: Vec<OutPoint> = Vec::new();
    let mut at = start;
    let mut i: u64 = 0;
    proof {
        lemma_outpoint_prefix_code();
        assert(rest.subrange(0, 8) =~= bytes@.subrange(pos as int, start as int));
        assert(bytes@.subrange(start as int, at as int) =~= encode_each(items@, encode));
    }
    while i < count
        invariant
            i <= count,
            items@.len() == i,
            pos + 8 == start,
            start <= at <= bytes@.len(),
            bytes@.subrange(start as int, at as int) == encode_each(items@, encode),
            encode == outpoint_encoder(),
            valid == any_outpoint(),
            prefix_code(encode, valid),
            rest == bytes@.skip(pos as int),
            rest.subrange(0, 8) == spec_u64_to_le_bytes(count),
        decreases count - i,
    {
        let (item, next) = match read_outpoint(bytes, at) {
            Some(read) => read,
            None => {
                proof {
                    assert forall|list: Seq<OutPoint>| list.len() <= u64::MAX implies !(
                    #[trigger] encode_outpoints(list)).is_prefix_of(rest) by {
                        if encode_outpoints(list).is_prefix_of(rest) {
                            let read = encode_each(items@, encode);
                            assert(read.is_prefix_of(rest.skip(8))) by {
                                assert(read =~= rest.skip(8).subrange(0, read.len() as int));
                            }
                            lemma_list_continues(rest, count, items@, list, encode, valid);
                            assert(rest.skip(8 + read.len() as int) =~= bytes@.skip(at as int));
                            assert(encode_outpoint(list[i as int]).is_prefix_of(
                                bytes@.skip(at as int),
                            ));
                        }
                    }
                }
                return None;
            },
        };
        proof {
            lemma_encode_each_push(items@, item, encode);
            assert(bytes@.subrange(start as int, next as int) =~= bytes@.subrange(
                start as int,
                at as int,
            ) + bytes@.subrange(at as int, next as int));
        }
        items.push(item);
        at = next;
        i += 1;
    }
    proof {
        assert(bytes@.subrange(pos as int, at as int) =~= bytes@.subrange(pos as int, start as int)
            + bytes@.subrange(start as int, at as int));
    }
    Some((items, at))
}

/// Reads a list of outputs at `pos`.
pub fn read_outputs(bytes: &[u8], pos: usize) -> (r: Option<(Vec<Output>, usize)>)
    requires
        pos <= bytes@.len(),
    ensures
        match r {
            Some((items, next)) => pos <= next <= bytes@.len() && bytes@.subrange(
                pos as int,
                next as int,
            ) == encode_outputs(items@),
            None => forall|list: Seq<Output>|
                list.len() <= u64::MAX ==> !(#[trigger] encode_outputs(list)).is_prefix_of(
                    bytes@.skip(pos as int),
                ),
        },
{
    let ghost rest = bytes@.skip(pos as int);
    let ghost encode = output_encoder();
    let ghost valid = any_output();
    let (count, start) = match read_u64(bytes, pos) {
        Some(read) => read,
        None => {
            proof {
                assert forall|list: Seq<Output>| list.len() <= u64::MAX implies !(
                #[trigger] encode_outputs(list)).is_prefix_of(rest) by {
                    lemma_list_length(list, encode);
                }
            }
            return None;
        },
    };
    let mut items: Vec<Output> = Vec::new();
    let mut at = start;
    let mut i: u64 = 0;
    proof {
        lemma_output_prefix_code();
        assert(rest.subrange(0, 8) =~= bytes@.subrange(pos as int, start as int));
        assert(bytes@.subrange(start as int, at as int) =~= encode_each(items@, encode));
    }
    while i < count
        invariant
            i <= count,
            items@.len() == i,
            pos + 8 == start,
            start <= at <= bytes@.len(),
            bytes@.subrange(start as int, at as int) == encode_each(items@, encode),
            encode == output_encoder(),
            valid == any_output(),
            prefix_code(encode, valid),
            rest == bytes@.skip(pos as int),
            rest.subrange(0, 8) == spec_u64_to_le_bytes(count),
        decreases count - i,
    {
        let (item, next) = match read_output(bytes, at) {
            Some(read) => read,
            None => {
                proof {
                    assert forall|list: Seq<Output>| list.len() <= u64::MAX implies !(
                    #[trigger] encode_outputs(list)).is_prefix_of(rest) by {
                        if encode_outputs(list).is_prefix_of(rest) {
                            let read = encode_each(items@, encode);
                            assert(read.is_prefix_of(rest.skip(8))) by {
                                assert(read =~= rest.skip(8).subrange(0, read.len() as int));
                            }
                            lemma_list_continues(rest, count, items@, list, encode, valid);
                            assert(rest.skip(8 + read.len() as int) =~= bytes@.skip(at as int));
                            assert(encode_output(list[i as int]).is_prefix_of(
                                bytes@.skip(at as int),
                            ));
                        }
                    }
                }
                return None;
            },
        };
        proof {
            lemma_encode_each_push(items@, item, encode);
            assert(bytes@.subrange(start as int, next as int) =~= bytes@.subrange(
                start as int,
                at as int,
            ) + bytes@.subrange(at as int, next as int));
        }
        items.push(item);
        at = next;
        i += 1;
    }
    proof {
        assert(bytes@.subrange(pos as int, at as int) =~= bytes@.subrange(pos as int, start as int)
            + bytes@.subrange(start as int, at as int));
    }
    Some((items, at))
}

/// Reads a transaction at `pos`.
pub fn read_transaction(bytes: &[u8], pos: usize) -> (r: Option<(Transaction, usize)>)
    requires
        pos <= bytes@.len(),
    ensures
        match r {
            Some((transaction, next)) => pos <= next <= bytes@.len() && bytes@.subrange(
                pos as int,
                next as int,
            ) == encode_transaction(transaction@) && sized(transaction@),
            None => forall|t: TransactionView|
                sized(t) ==> !(#[trigger] encode_transaction(t)).is_prefix_of(
                    bytes@.skip(pos as int),
                ),
        },
{
    let ghost rest = bytes@.skip(pos as int);
    let (inputs, middle) = match read_outpoints(bytes, pos) {
        Some(read) => read,
        None => {
            proof {
                assert forall|t: TransactionView| sized(t) implies !(
                #[trigger] encode_transaction(t)).is_prefix_of(rest) by {
                    let head = encode_outpoints(t.inputs);
                    let whole = encode_transaction(t);
                    if whole.is_prefix_of(rest) {
                        assert(head =~= whole.subrange(0, head.len() as int));
                        assert(head =~= rest.subrange(0, head.len() as int));
                        assert(head.is_prefix_of(rest));
                    }
                }
            }
            return None;
        },
    };
    let inputs_count = inputs.len();
    let ghost read_inputs = encode_outpoints(inputs@);
    proof {
        assert(read_inputs.is_prefix_of(rest)) by {
            assert(read_inputs =~= rest.subrange(0, read_inputs.len() as int));
        }
        assert(rest.skip(read_inputs.len() as int) =~= bytes@.skip(middle as int));
    }
    let (outputs, next) = match read_outputs(bytes, middle) {
        Some(read) => read,
        None => {
            proof {
                lemma_outpoint_prefix_code();
                assert forall|t: TransactionView| sized(t) implies !(
                #[trigger] encode_transaction(t)).is_prefix_of(rest) by {
                    let head = encode_outpoints(t.inputs);
                    let tail = encode_outputs(t.outputs);
                    let whole = encode_transaction(t);
                    if whole.is_prefix_of(rest) {
                        assert(head =~= whole.subrange(0, head.len() as int));
                        assert(head =~= rest.subrange(0, head.len() as int));
                        assert(head.is_prefix_of(rest));
                        lemma_list_unique(
                            inputs@,
                            t.inputs,
                            rest,
                            outpoint_encoder(),
                            any_outpoint(),
                        );
                        assert(tail =~= whole.subrange(head.len() as int, whole.len() as int));
                        assert(tail =~= bytes@.skip(middle as int).subrange(0, tail.len() as int));
                        assert(tail.is_prefix_of(bytes@.skip(middle as int)));
                    }
                }
            }
            return None;
        },
    };
    proof {
        assert(bytes@.subrange(pos as int, next as int) =~= bytes@.subrange(
            pos as int,
            middle as int,
        ) + bytes@.subrange(middle as int, next as int));
    }
    let outputs_count = outputs.len();
    Some((Transaction { inputs, outputs }, next))
}

/// Reads a list of transactions at `pos`.
pub fn read_transactions(bytes: &[u8], pos: usize) -> (r: Option<(Vec<Transaction>, usize)>)
    requires
        pos <= bytes@.len(),
    ensures
        match r {
            Some((items, next)) => pos <= next <= bytes@.len() && bytes@.subrange(
                pos as int,
                next as int,
            ) == encode_transactions(transaction_views(items@)) && all_valid(
                transaction_views(items@),
                sized_transaction(),
            ),
            None => forall|list: Seq<TransactionView>|
                list.len() <= u64::MAX && all_valid(list, sized_transaction()) ==> !(
                #[trigger] encode_transactions(list)).is_prefix_of(bytes@.skip(pos as int)),
        },
{
    let ghost rest = bytes@.skip(pos as int);
    let ghost encode = transaction_encoder();
    let ghost valid = sized_transaction();
    let (count, start) = match read_u64(bytes, pos) {
        Some(read) => read,
        None => {
            proof {
                assert forall|list: Seq<TransactionView>|
                    list.len() <= u64::MAX && all_valid(list, valid) implies !(
                #[trigger] encode_transactions(list)).is_prefix_of(rest) by {
                    lemma_list_length(list, encode);
                }
            }
            return None;
        },
    };
    let mut items: Vec<Transaction> = Vec::new();
    let mut at = start;
    let mut i: u64 = 0;
    proof {
        lemma_transaction_prefix_code();
        assert(rest.subrange(0, 8) =~= bytes@.subrange(pos as int, start as int));
        assert(transaction_views(items@) =~= Seq::<TransactionView>::empty());
        assert(bytes@.subrange(start as int, at as int) =~= encode_each(
            transaction_views(items@),
            encode,
        ));
    }
    while i < count
        invariant
            i <= count,
            items@.len() == i,
            pos + 8 == start,
            start <= at <= bytes@.len(),
            bytes@.subrange(start as int, at as int) == encode_each(
                transaction_views(items@),
                encode,
            ),
            all_valid(transaction_views(items@), valid),
            encode == transaction_encoder(),
            valid == sized_transaction(),
            prefix_code(encode, valid),
            rest == bytes@.skip(pos as int),
            rest.subrange(0, 8) == spec_u64_to_le_bytes(count),
        decreases count - i,
    {
        let ghost views = transaction_views(items@);
        let (item, next) = match read_transaction(bytes, at) {
            Some(read) => read,
            None => {
                proof {
                    assert forall|list: Seq<TransactionView>|
                        list.len() <= u64::MAX && all_valid(list, valid) implies !(
                    #[trigger] encode_transactions(list)).is_prefix_of(rest) by {
                        if encode_transactions(list).is_prefix_of(rest) {
                            let read = encode_each(views, encode);
                            assert(read.is_prefix_of(rest.skip(8))) by {
                                assert(read =~= rest.skip(8).subrange(0, read.len() as int));
                            }
                            lemma_list_continues(rest, count, views, list, encode, valid);
                            assert(rest.skip(8 + read.len() as int) =~= bytes@.skip(at as int));
                            assert(valid(list[i as int]));
                            assert(encode_transaction(list[i as int]).is_prefix_of(
                                bytes@.skip(at as int),
                            ));
                        }
                    }
                }
                return None;
            },
        };
        proof {
            lemma_encode_each_push(views, item@, encode);
            assert(bytes@.subrange(start as int, next as int) =~= bytes@.subrange(
                start as int,
                at as int,
            ) + bytes@.subrange(at as int, next as int));
        }
        items.push(item);
        proof {
            assert(transaction_views(items@) =~= views.push(item@));
            assert forall|k: int| 0 <= k < transaction_views(items@).len() implies valid(
                #[trigger] transaction_views(items@)[k],
            ) by {
                if k < views.len() {
                    assert(valid(views[k]));
                }
            }
        }
        at = next;
        i += 1;
    }
    proof {
        assert(bytes@.subrange(pos as int, at as int) =~= bytes@.subrange(pos as int, start as int)
            + bytes@.subrange(start as int, at as int));
        assert(transaction_views(items@).len() == items@.len());
    }
    Some((items, at))
}

/// Whether `bytes` are the encoding of a transaction.
pub open spec fn is_transaction(bytes: Seq<u8>) -> bool {
    exists|t: TransactionView| sized(t) && #[trigger] encode_transaction(t) == bytes
}

/// The transaction that `bytes` encode.
pub open spec fn transaction_of(bytes: Seq<u8>) -> TransactionView {
    choose|t: TransactionView| sized(t) && #[trigger] encode_transaction(t) == bytes
}

/// A transaction is the one that its encoding encodes.
pub proof fn lemma_transaction_round_trip(transaction: TransactionView)
    requires
        sized(transaction),
    ensures
        is_transaction(encode_transaction(transaction)),
        transaction_of(encode_transaction(transaction)) == transaction,
{
    let bytes = encode_transaction(transaction);
    assert(sized(transaction) && encode_transaction(transaction) == bytes);
    lemma_transaction_injective(transaction_of(bytes), transaction);
}

/// The transaction that `bytes` encode, if they encode one.
pub fn decode_transaction(bytes: &[u8]) -> (r: Option<Transaction>)
    ensures
        match r {
            Some(transaction) => encode_transaction(transaction@) == bytes@ && is_transaction(
                bytes@,
            ) && transaction@ == transaction_of(bytes@),
            None => !is_transaction(bytes@),
        },
{
    let r = decode_transaction_exactly(bytes);
    proof {
        if r is Some {
            lemma_transaction_round_trip(r->Some_0@);
        }
    }
    r
}

fn decode_transaction_exactly(bytes: &[u8]) -> (r: Option<Transaction>)
    ensures
        match r {
            Some(transaction) => encode_transaction(transaction@) == bytes@ && sized(
                transaction@,
            ),
            None => forall|t: TransactionView|
                sized(t) ==> #[trigger] encode_transaction(t) != bytes@,
        },
{
    proof {
        assert(bytes@.skip(0) =~= bytes@);
    }
    match read_transaction(bytes, 0) {
        Some((transaction, next)) => {
            if next == bytes.len() {
                proof {
                    assert(bytes@.subrange(0, next as int) =~= bytes@);
                }
                Some(transaction)
            } else {
                proof {
                    let found = encode_transaction(transaction@);
                    assert(found.is_prefix_of(bytes@)) by {
                        assert(found =~= bytes@.subrange(0, found.len() as int));
                    }
                    assert forall|t: TransactionView| sized(t) implies #[trigger] encode_transaction(
                        t,
                    ) != bytes@ by {
                        if encode_transaction(t) == bytes@ {
                            assert(bytes@.is_prefix_of(bytes@)) by {
                                assert(bytes@ =~= bytes@.subrange(0, bytes@.len() as int));
                            }
                            lemma_transaction_unique(t, transaction@, bytes@);
                        }
                    }
                }
                None
            }
        },
        None => {
            proof {
                assert forall|t: TransactionView| sized(t) implies #[trigger] encode_transaction(
                    t,
                ) != bytes@ by {
                    if encode_transaction(t) == bytes@ {
                        assert(bytes@.is_prefix_of(bytes@)) by {
                            assert(bytes@ =~= bytes@.subrange(0, bytes@.len() as int));
                        }
                    }
                }
            }
            None
        },
    }
}

/// Two headers with the same encoding are the same header.
pub proof fn lemma_header_injective(x: Header, y: Header)
    requires
        encode_header(x) == encode_header(y),
    ensures
        x == y,
{
    let ex = encode_header(x);
    let ey = encode_header(y);
    assert(ex.subrange(0, 32) =~= x.prev_side_block_hash@);
    assert(ey.subrange(0, 32) =~= y.prev_side_block_hash@);
    assert(x.prev_side_block_hash =~= y.prev_side_block_hash);
    assert(ex.subrange(32, 64) =~= x.merkle_root@);
    assert(ey.subrange(32, 64) =~= y.merkle_root@);
    assert(x.merkle_root =~= y.merkle_root);
}

/// Reads a header at `pos`.
pub fn read_header(bytes: &[u8], pos: usize) -> (r: Option<(Header, usize)>)
    requires
        pos <= bytes@.len(),
    ensures
        match r {
            Some((header, next)) => next == pos + 64 && next <= bytes@.len() && bytes@.subrange(
                pos as int,
                next as int,
            ) == encode_header(header),
            None => bytes@.len() - pos < 64,
        },
{
    if bytes.len() - pos < 64 {
        return None;
    }
    let (prev_side_block_hash, middle) = match read_array::<HASH_LENGTH>(bytes, pos) {
        Some(read) => read,
        None => {
            return None;
        },
    };
    let (merkle_root, next) = match read_array::<HASH_LENGTH>(bytes, middle) {
        Some(read) => read,
        None => {
            return None;
        },
    };
    proof {
        assert(bytes@.subrange(pos as int, next as int) =~= bytes@.subrange(
            pos as int,
            middle as int,
        ) + bytes@.subrange(middle as int, next as int));
    }
    Some((Header { prev_side_block_hash, merkle_root }, next))
}

/// The header that `bytes` encode, if they encode one.
pub fn decode_header(bytes: &[u8]) -> (r: Option<Header>)
    ensures
        match r {
            Some(header) => encode_header(header) == bytes@,
            None => forall|h: Header| #[trigger] encode_header(h) != bytes@,
        },
{
    if bytes.len() != 64 {
        return None;
    }
    match read_header(bytes, 0) {
        Some((header, next)) => {
            proof {
                assert(bytes@.subrange(0, next as int) =~= bytes@);
            }
            Some(header)
        },
        None => None,
    }
}

/// Whether a block's lists have lengths that fit in 64 bits, as those of
/// every block in memory do.
pub open spec fn sized_block(coinbase: Seq<Output>, transactions: Seq<TransactionView>) -> bool {
    &&& coinbase.len() <= u64::MAX
    &&& transactions.len() <= u64::MAX
    &&& all_valid(transactions, sized_transaction())
}

/// Two blocks with the same encoding are the same block.
pub proof fn lemma_block_injective(
    h: Header,
    c: Seq<Output>,
    t: Seq<TransactionView>,
    h2: Header,
    c2: Seq<Output>,
    t2: Seq<TransactionView>,
)
    requires
        sized_block(c, t),
        sized_block(c2, t2),
        encode_block(h, c, t) == encode_block(h2, c2, t2),
    ensures
        h == h2,
        c == c2,
        t == t2,
{
    lemma_output_prefix_code();
    lemma_transaction_prefix_code();
    let whole = encode_block(h, c, t);
    assert(encode_header(h) =~= whole.subrange(0, 64));
    assert(encode_header(h2) =~= whole.subrange(0, 64));
    lemma_header_injective(h, h2);
    let after_header = whole.skip(64);
    let lc = encode_outputs(c);
    let lc2 = encode_outputs(c2);
    assert(lc.is_prefix_of(after_header)) by {
        assert(lc =~= after_header.subrange(0, lc.len() as int));
    }
    assert(lc2.is_prefix_of(after_header)) by {
        assert(lc2 =~= after_header.subrange(0, lc2.len() as int));
    }
    lemma_list_unique(c, c2, after_header, output_encoder(), any_output());
    let tail = after_header.skip(lc.len() as int);
    let lt = encode_transactions(t);
    let lt2 = encode_transactions(t2);
    assert(lt.is_prefix_of(tail)) by {
        assert(lt =~= tail.subrange(0, lt.len() as int));
    }
    assert(lt2.is_prefix_of(tail)) by {
        assert(lt2 =~= tail.subrange(0, lt2.len() as int));
    }
    lemma_list_unique(t, t2, tail, transaction_encoder(), sized_transaction());
}

/// Whether `bytes` are the encoding of a block.
pub open spec fn is_block(bytes: Seq<u8>) -> bool {
    exists|h: Header, c: Seq<Output>, t: Seq<TransactionView>|
        sized_block(c, t) && #[trigger] encode_block(h, c, t) == bytes
}

/// The block that `bytes` encode: its header, its coinbase and its transactions.
pub open spec fn block_of(bytes: Seq<u8>) -> (Header, Seq<Output>, Seq<TransactionView>) {
    choose|b: (Header, Seq<Output>, Seq<TransactionView>)|
        sized_block(b.1, b.2) && #[trigger] encode_block(b.0, b.1, b.2) == bytes
}

/// A block is the one that its encoding encodes.
pub proof fn lemma_block_round_trip(h: Header, c: Seq<Output>, t: Seq<TransactionView>)
    requires
        sized_block(c, t),
    ensures
        is_block(encode_block(h, c, t)),
        block_of(encode_block(h, c, t)) == (h, c, t),
{
    let bytes = encode_block(h, c, t);
    let given = (h, c, t);
    assert(sized_block(given.1, given.2) && encode_block(given.0, given.1, given.2) == bytes);
    let b = block_of(bytes);
    lemma_block_injective(b.0, b.1, b.2, h, c, t);
}

/// The block that `bytes` encode, if they encode one: its header, its
/// coinbase and its transactions.
pub fn decode_block(bytes: &[u8]) -> (r: Option<(Header, Vec<Output>, Vec<Transaction>)>)
    ensures
        match r {
            Some((header, coinbase, transactions)) => encode_block(
                header,
                coinbase@,
                transaction_views(transactions@),
            ) == bytes@ && is_block(bytes@) && block_of(bytes@) == (
                header,
                coinbase@,
                transaction_views(transactions@),
            ),
            None => !is_block(bytes@),
        },
{
    let r = decode_block_exactly(bytes);
    proof {
        if r is Some {
            let block = r->Some_0;
            lemma_block_round_trip(block.0, block.1@, transaction_views(block.2@));
        }
    }
    r
}

fn decode_block_exactly(bytes: &[u8]) -> (r: Option<(Header, Vec<Output>, Vec<Transaction>)>)
    ensures
        match r {
            Some((header, coinbase, transactions)) => encode_block(
                header,
                coinbase@,
                transaction_views(transactions@),
            ) == bytes@ && sized_block(coinbase@, transaction_views(transactions@)),
            None => forall|h: Header, c: Seq<Output>, t: Seq<TransactionView>|
                sized_block(c, t) ==> #[trigger] encode_block(h, c, t) != bytes@,
        },
{
    let (header, after_header) = match read_header(bytes, 0) {
        Some(read) => read,
        None => {
            proof {
                assert forall|h: Header, c: Seq<Output>, t: Seq<TransactionView>|
                    sized_block(c, t) implies #[trigger] encode_block(h, c, t) != bytes@ by {
                    assert(encode_block(h, c, t).len() >= 64);
                }
            }
            return None;
        },
    };
    proof {
        assert forall|h: Header, c: Seq<Output>, t: Seq<TransactionView>| #[trigger]
            encode_block(h, c, t) == bytes@ implies h == header && encode_outputs(
            c,
        ).is_prefix_of(bytes@.skip(64)) by {
            let whole = encode_block(h, c, t);
            assert(encode_header(h) =~= whole.subrange(0, 64));
            assert(encode_header(header) =~= bytes@.subrange(0, 64));
            lemma_header_injective(h, header);
            let list = encode_outputs(c);
            assert(list =~= whole.subrange(64, 64 + list.len() as int));
            assert(list =~= bytes@.skip(64).subrange(0, list.len() as int));
        }
    }
    let (coinbase, after_coinbase) = match read_outputs(bytes, after_header) {
        Some(read) => read,
        None => {
            return None;
        },
    };
    let coinbase_count = coinbase.len();
    proof {
        lemma_output_prefix_code();
        let read = encode_outputs(coinbase@);
        assert(read.is_prefix_of(bytes@.skip(64))) by {
            assert(read =~= bytes@.skip(64).subrange(0, read.len() as int));
        }
        assert forall|h: Header, c: Seq<Output>, t: Seq<TransactionView>|
            sized_block(c, t) && #[trigger] encode_block(h, c, t) == bytes@ implies c == coinbase@
            && encode_transactions(t) == bytes@.skip(after_coinbase as int) by {
            lemma_list_unique(c, coinbase@, bytes@.skip(64), output_encoder(), any_output());
            let whole = encode_block(h, c, t);
            let list = encode_transactions(t);
            assert(list =~= whole.subrange(64 + read.len() as int, whole.len() as int));
            assert(list =~= bytes@.skip(after_coinbase as int));
        }
    }
    let (transactions, end) = match read_transactions(bytes, after_coinbase) {
        Some(read) => read,
        None => {
            proof {
                assert forall|h: Header, c: Seq<Output>, t: Seq<TransactionView>|
                    sized_block(c, t) implies #[trigger] encode_block(h, c, t) != bytes@ by {
                    if encode_block(h, c, t) == bytes@ {
                        let list = encode_transactions(t);
                        assert(list.is_prefix_of(bytes@.skip(after_coinbase as int))) by {
                            assert(list =~= list.subrange(0, list.len() as int));
                        }
                    }
                }
            }
            return None;
        },
    };
    let transactions_count = transactions.len();
    if end != bytes.len() {
        proof {
            lemma_transaction_prefix_code();
            let tail = bytes@.skip(after_coinbase as int);
            let read = encode_transactions(transaction_views(transactions@));
            assert(read.is_prefix_of(tail)) by {
                assert(read =~= tail.subrange(0, read.len() as int));
            }
            assert forall|h: Header, c: Seq<Output>, t: Seq<TransactionView>|
                sized_block(c, t) implies #[trigger] encode_block(h, c, t) != bytes@ by {
                if encode_block(h, c, t) == bytes@ {
                    let list = encode_transactions(t);
                    assert(list.is_prefix_of(tail)) by {
                        assert(list =~= list.subrange(0, list.len() as int));
                    }
                    assert(transaction_views(transactions@).len() == transactions@.len());
                    lemma_list_unique(
                        t,
                        transaction_views(transactions@),
                        tail,
                        transaction_encoder(),
                        sized_transaction(),
                    );
                }
            }
        }
        return None;
    }
    proof {
        assert(bytes@ =~= bytes@.subrange(0, 64) + bytes@.subrange(64, after_coinbase as int)
            + bytes@.subrange(after_coinbase as int, end as int));
    }
    Some((header, coinbase, transactions))
}

} // verus!
