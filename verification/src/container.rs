//! The container: the count table, the number of meaningful bits in the last
//! payload byte, and the packed payload.

use vstd::prelude::*;
use vstd::bytes::{
    lemma_auto_spec_u64_to_from_le_bytes, spec_u64_from_le_bytes, spec_u64_to_le_bytes,
    u64_from_le_bytes, u64_to_le_bytes,
};
use vstd::slice::slice_subrange;
use crate::bits::{
    encode_bits, encoded, lemma_packed_len, lemma_unpack_packed, pack_bits, packed, unpack_bits,
    unpacked, valid_bits,
};
use crate::codes::{code_table, code_table_of, lemma_code_table};
use crate::decode::{
    begins, decode_bits, decode_from, lemma_decode_encoded, lemma_decode_shorter,
};
use crate::frequency::{
    byte_frequencies, count_sum, frequencies, lemma_count_sum_grows, lemma_frequencies_sum,
    lemma_occurrences_bound, lemma_occurrences_positive, lemma_occurrences_uniform,
};
use crate::tree::{
    freq_to_tree, huff_reduce, leaf, leaf_forest, lemma_forest_has_leaf, lemma_forest_single,
    lemma_leaf_forest_weight, lemma_reduce_keeps_leaf, make_tree, tree_of_counts,
};

verus! {

/// Why a container could not be decoded.
#[derive(Clone, Copy, Debug, PartialEq, Eq, Structural)]
pub enum DecodeError {
    /// The container is too short to hold the count table and the bit count,
    /// or what it holds there cannot be: counts that sum to more than 64 bits
    /// hold, a bit count above eight, a payload with no meaningful bit, or a
    /// payload where the counts announce no byte at all.
    MalformedHeader,
    /// The payload ends within a symbol, leaves the tree, or spells another
    /// number of bytes than the counts announce.
    TruncatedContainer,
}

/// The length of the count table: 256 counts of eight bytes.
pub const TABLE_LEN: usize = 2048;

/// The first `n` counts, eight little-endian bytes each.
pub open spec fn count_bytes(counts: Seq<u64>, n: int) -> Seq<u8>
    decreases n,
{
    if n <= 0 {
        Seq::empty()
    } else {
        count_bytes(counts, n - 1) + spec_u64_to_le_bytes(counts[n - 1])
    }
}

/// The counts that the first 2048 bytes of `container` spell.
pub open spec fn parsed_counts(container: Seq<u8>) -> Seq<u64> {
    Seq::new(256, |v: int| spec_u64_from_le_bytes(container.subrange(8 * v, 8 * v + 8)))
}

/// The bit stream of `bytes` under the code table of its own code tree.
pub open spec fn encoded_stream(bytes: Seq<u8>) -> Seq<bool> {
    if bytes.len() == 0 {
        Seq::empty()
    } else {
        encoded(code_table_of(tree_of_counts(frequencies(bytes))), bytes)
    }
}

/// The container of `bytes`.
pub open spec fn container_of(bytes: Seq<u8>) -> Seq<u8> {
    count_bytes(frequencies(bytes), 256) + seq![valid_bits(encoded_stream(bytes).len()) as u8]
        + packed(encoded_stream(bytes))
}

/// What decoding `container` gives.
pub open spec fn decoded(container: Seq<u8>) -> Result<Seq<u8>, DecodeError> {
    if container.len() <= TABLE_LEN {
        Err(DecodeError::MalformedHeader)
    } else {
        let counts = parsed_counts(container);
        let total = count_sum(counts, 256);
        let valid = container[TABLE_LEN as int];
        let payload = container.skip(TABLE_LEN + 1);
        if total > u64::MAX || valid > 8 || (valid == 0 && payload.len() > 0) {
            Err(DecodeError::MalformedHeader)
        } else if payload.len() == 0 && valid > 0 {
            Err(DecodeError::TruncatedContainer)
        } else if total == 0 {
            if payload.len() == 0 {
                Ok(Seq::empty())
            } else {
                Err(DecodeError::MalformedHeader)
            }
        } else {
            match decode_from(tree_of_counts(counts), unpacked(payload, valid as nat), 0) {
                Some(symbols) if symbols.len() == total => Ok(symbols),
                _ => Err(DecodeError::TruncatedContainer),
            }
        }
    }
}

/// A count table takes eight bytes for each count, and each count can be read
/// back from its place, whatever follows the table.
pub proof fn lemma_count_bytes(counts: Seq<u64>, n: int, tail: Seq<u8>, v: int)
    requires
        0 <= v < n <= counts.len(),
    ensures
        count_bytes(counts, n).len() == 8 * n,
        spec_u64_from_le_bytes((count_bytes(counts, n) + tail).subrange(8 * v, 8 * v + 8))
            == counts[v],
    decreases n,
{
    lemma_auto_spec_u64_to_from_le_bytes();
    lemma_count_bytes_len(counts, n - 1);
    let front = count_bytes(counts, n - 1);
    let word = spec_u64_to_le_bytes(counts[n - 1]);
    if v == n - 1 {
        assert((front + word + tail).subrange(8 * v, 8 * v + 8) =~= word);
    } else {
        lemma_count_bytes(counts, n - 1, word + tail, v);
        assert(front + word + tail =~= front + (word + tail));
    }
}

/// A count table takes eight bytes for each count.
pub proof fn lemma_count_bytes_len(counts: Seq<u64>, n: int)
    requires
        0 <= n <= counts.len(),
    ensures
        count_bytes(counts, n).len() == 8 * n,
    decreases n,
{
    lemma_auto_spec_u64_to_from_le_bytes();
    if n > 0 {
        lemma_count_bytes_len(counts, n - 1);
    }
}

/// The container of an input is the count table of its counts, the number
/// of meaningful bits, and the packed bit stream, and each can be read back
/// from its place, also when the payload has lost its last byte.
proof fn lemma_container_parts(bytes: Seq<u8>, whole: bool)
    requires
        bytes.len() <= u64::MAX,
        whole || packed(encoded_stream(bytes)).len() > 0,
    ensures
        ({
            let c = if whole { container_of(bytes) } else { container_of(bytes).drop_last() };
            let payload = packed(encoded_stream(bytes));
            &&& c.len() > TABLE_LEN
            &&& parsed_counts(c) == frequencies(bytes)
            &&& count_sum(frequencies(bytes), 256) == bytes.len()
            &&& c[TABLE_LEN as int] == valid_bits(encoded_stream(bytes).len())
            &&& c.skip(TABLE_LEN + 1) == if whole { payload } else { payload.drop_last() }
        }),
{
    let counts = frequencies(bytes);
    let bits = encoded_stream(bytes);
    let valid = valid_bits(bits.len());
    let table = count_bytes(counts, 256);
    let payload = if whole { packed(bits) } else { packed(bits).drop_last() };
    let tail = seq![valid as u8] + payload;
    let c = if whole { container_of(bytes) } else { container_of(bytes).drop_last() };
    assert(c =~= table + tail);
    lemma_count_bytes_len(counts, 256);
    assert forall|v: int| 0 <= v < 256 implies parsed_counts(c)[v] == counts[v] by {
        lemma_count_bytes(counts, 256, tail, v);
    }
    assert(parsed_counts(c) =~= counts);
    assert(c.skip(TABLE_LEN + 1) =~= payload);
    lemma_frequencies_sum(bytes);
}

/// The bit stream of a non-empty input is not empty, and decoding it in the
/// code tree of the input spells the input.
pub proof fn lemma_stream_decodes(bytes: Seq<u8>)
    requires
        0 < bytes.len() <= u64::MAX,
    ensures
        encoded_stream(bytes).len() > 0,
        decode_from(tree_of_counts(frequencies(bytes)), encoded_stream(bytes), 0) == Some(bytes),
{
    let tree = tree_of_counts(frequencies(bytes));
    let codes = code_table_of(tree);
    assert forall|i: int| 0 <= i < bytes.len() implies crate::codes::is_code_of(
        tree,
        codes[bytes[i] as int],
        bytes[i],
    ) by {
        lemma_byte_has_leaf(bytes, i);
        lemma_code_table(tree, bytes[i]);
    }
    lemma_decode_encoded(tree, codes, bytes, 0);
    assert(bytes.take(0) =~= Seq::<u8>::empty());
    assert(bytes.skip(0) =~= bytes);
    lemma_byte_has_leaf(bytes, bytes.len() - 1);
    lemma_code_table(tree, bytes.last());
}

/// Decoding the container of an input gives the input back.
pub proof fn lemma_round_trip(bytes: Seq<u8>)
    requires
        bytes.len() <= u64::MAX,
    ensures
        decoded(container_of(bytes)) == Ok::<Seq<u8>, DecodeError>(bytes),
{
    let bits = encoded_stream(bytes);
    lemma_container_parts(bytes, true);
    lemma_packed_len(bits.len());
    lemma_unpack_packed(bits);
    if bytes.len() == 0 {
        assert(bytes =~= Seq::<u8>::empty());
    } else {
        lemma_stream_decodes(bytes);
    }
}

/// A container of a non-empty input whose payload has lost its last byte is
/// reported as truncated.
pub proof fn lemma_truncation_detected(bytes: Seq<u8>)
    requires
        0 < bytes.len() <= u64::MAX,
    ensures
        container_of(bytes).len() > TABLE_LEN + 1,
        decoded(container_of(bytes).drop_last()) == Err::<Seq<u8>, DecodeError>(
            DecodeError::TruncatedContainer,
        ),
{
    let bits = encoded_stream(bytes);
    let valid = valid_bits(bits.len());
    let tree = tree_of_counts(frequencies(bytes));
    lemma_stream_decodes(bytes);
    lemma_packed_len(bits.len());
    lemma_container_parts(bytes, true);
    lemma_container_parts(bytes, false);
    lemma_unpack_packed(bits);
    let rest = packed(bits).drop_last();
    if rest.len() > 0 {
        let fewer = unpacked(rest, valid);
        assert(begins(bits, fewer)) by {
            assert forall|k: int| 0 <= k < fewer.len() implies fewer[k] == bits[k] by {
                assert(unpacked(packed(bits), valid)[k] == fewer[k]);
            }
        }
        if decode_from(tree, fewer, 0) is Some {
            lemma_decode_shorter(tree, fewer, bits, 0);
        }
    }
}

/// An input that repeats one byte value has that value's leaf for its code
/// tree and the one bit `false` for its code, never the empty code, so that
/// its bit stream holds one bit for each byte.
pub proof fn lemma_single_symbol(bytes: Seq<u8>, b: u8)
    requires
        0 < bytes.len() <= u64::MAX,
        forall|i: int| 0 <= i < bytes.len() ==> bytes[i] == b,
    ensures
        tree_of_counts(frequencies(bytes)) == leaf(b, bytes.len() as u64),
        code_table_of(tree_of_counts(frequencies(bytes)))[b as int] == seq![false],
        encoded_stream(bytes).len() == bytes.len(),
{
    let counts = frequencies(bytes);
    assert forall|v: int| 0 <= v < 256 implies counts[v] == if v == b {
        bytes.len() as u64
    } else {
        0
    } by {
        lemma_occurrences_uniform(bytes, b, v as u8);
    }
    lemma_forest_single(counts, b, 256);
    let codes = code_table_of(leaf(b, bytes.len() as u64));
    lemma_uniform_stream(codes, bytes, b);
}

/// The bit stream of an input that repeats one byte value, whose code is one
/// bit, holds one bit for each byte.
proof fn lemma_uniform_stream(codes: Seq<Seq<bool>>, bytes: Seq<u8>, b: u8)
    requires
        codes[b as int].len() == 1,
        forall|i: int| 0 <= i < bytes.len() ==> bytes[i] == b,
    ensures
        encoded(codes, bytes).len() == bytes.len(),
    decreases bytes.len(),
{
    if bytes.len() > 0 {
        lemma_uniform_stream(codes, bytes.drop_last(), b);
    }
}

/// Each byte of an input has a leaf in the code tree of the input.
pub proof fn lemma_byte_has_leaf(bytes: Seq<u8>, i: int)
    requires
        0 <= i < bytes.len() <= u64::MAX,
    ensures
        crate::tree::has_leaf(tree_of_counts(frequencies(bytes)), bytes[i]),
{
    let counts = frequencies(bytes);
    lemma_occurrences_positive(bytes, i);
    lemma_occurrences_bound(bytes, bytes[i]);
    lemma_forest_has_leaf(counts, 256, bytes[i]);
    let forest = leaf_forest(counts, 256);
    let k = choose|k: int| 0 <= k < forest.len() && crate::tree::has_leaf(#[trigger] forest[k], bytes[i]);
    lemma_reduce_keeps_leaf(forest, k, bytes[i]);
}

/// The count table of `counts`.
fn write_counts(counts: &Vec<u64>) -> (out: Vec<u8>)
    requires
        counts.len() == 256,
    ensures
        out@ == count_bytes(counts@, 256),
{
    let mut out: Vec<u8> = Vec::new();
    let mut v: usize = 0;
    while v < 256
        invariant
            v <= 256,
            counts.len() == 256,
            out@ == count_bytes(counts@, v as int),
        decreases 256 - v,
    {
        let mut word = u64_to_le_bytes(counts[v]);
        out.append(&mut word);
        v += 1;
    }
    out
}

/// The 256 counts at the start of `container`.
fn read_counts(container: &[u8]) -> (counts: Vec<u64>)
    requires
        container.len() >= TABLE_LEN,
    ensures
        counts@ == parsed_counts(container@),
{
    let mut counts: Vec<u64> = Vec::new();
    let mut v: usize = 0;
    while v < 256
        invariant
            v <= 256,
            container.len() >= TABLE_LEN,
            counts.len() == v,
            forall|i: int| 0 <= i < v ==> counts[i] == parsed_counts(container@)[i],
        decreases 256 - v,
    {
        let word = slice_subrange(container, 8 * v, 8 * v + 8);
        counts.push(u64_from_le_bytes(word));
        v += 1;
    }
    proof {
        assert(counts@ =~= parsed_counts(container@));
    }
    counts
}

/// The sum of the 256 counts, or nothing if it does not fit.
fn sum_counts(counts: &Vec<u64>) -> (total: Option<u64>)
    requires
        counts.len() == 256,
    ensures
        match total {
            Some(sum) => sum == count_sum(counts@, 256),
            None => count_sum(counts@, 256) > u64::MAX,
        },
{
    let mut sum: u64 = 0;
    let mut v: usize = 0;
    while v < 256
        invariant
            v <= 256,
            counts.len() == 256,
            sum == count_sum(counts@, v as int),
        decreases 256 - v,
    {
        if counts[v] > u64::MAX - sum {
            proof {
                lemma_count_sum_grows(counts@, v + 1, 256);
            }
            return None;
        }
        sum = sum + counts[v];
        v += 1;
    }
    Some(sum)
}

/// Compresses `bytes` into a container that holds all that decoding needs:
/// the 256 byte counts, the number of meaningful bits in the last payload
/// byte (1 to 8, or 0 where there is no payload), and the packed bit stream.
/// The container depends on the input alone, and decoding it gives the input
/// back.
pub fn compress(bytes: &[u8]) -> (container: Vec<u8>)
    ensures
        container@ == container_of(bytes@),
        decoded(container@) == Ok::<Seq<u8>, DecodeError>(bytes@),
{
    let byte_counts = byte_frequencies(bytes);
    let mut container = write_counts(&byte_counts);
    let bits = match make_tree(bytes) {
        None => Vec::new(),
        Some(tree) => {
            let encoding_table = code_table(&tree);
            encode_bits(bytes, &encoding_table)
        },
    };
    let mut payload = pack_bits(&bits);
    let valid: u8 = if bits.len() == 0 {
        0
    } else {
        ((bits.len() - 1) % 8 + 1) as u8
    };
    container.push(valid);
    container.append(&mut payload);
    proof {
        assert(bytes@.len() == bytes.len());
        assert(container@ =~= container_of(bytes@));
        lemma_round_trip(bytes@);
    }
    container
}

/// Decodes a container: rebuilds the code tree from the count table, walks
/// the payload through it, and checks that as many bytes came out as the
/// counts announce.
pub fn decompress(container: &[u8]) -> (result: Result<Vec<u8>, DecodeError>)
    ensures
        match result {
            Ok(bytes) => decoded(container@) == Ok::<Seq<u8>, DecodeError>(bytes@),
            Err(e) => decoded(container@) == Err::<Seq<u8>, DecodeError>(e),
        },
{
    if container.len() <= TABLE_LEN {
        return Err(DecodeError::MalformedHeader);
    }
    let byte_counts = read_counts(container);
    let valid: u8 = container[TABLE_LEN];
    let payload = slice_subrange(container, TABLE_LEN + 1, container.len());
    let total = match sum_counts(&byte_counts) {
        Some(total) => total,
        None => {
            return Err(DecodeError::MalformedHeader);
        },
    };
    if valid > 8 || (valid == 0 && payload.len() > 0) {
        return Err(DecodeError::MalformedHeader);
    }
    if payload.len() == 0 && valid > 0 {
        return Err(DecodeError::TruncatedContainer);
    }
    if total == 0 {
        return if payload.len() == 0 {
            Ok(Vec::new())
        } else {
            Err(DecodeError::MalformedHeader)
        };
    }
    proof {
        lemma_leaf_forest_weight(byte_counts@, 256);
        assert(container@.skip(TABLE_LEN + 1) =~= payload@);
    }
    let tree = huff_reduce(freq_to_tree(byte_counts));
    let bits = unpack_bits(payload, valid);
    match decode_bits(&tree, &bits) {
        Some(symbols) => {
            if symbols.len() as u64 == total {
                Ok(symbols)
            } else {
                Err(DecodeError::TruncatedContainer)
            }
        },
        None => Err(DecodeError::TruncatedContainer),
    }
}

} // verus!
