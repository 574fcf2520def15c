//! The encoded bit stream and its packing into bytes.

use vstd::prelude::*;

verus! {

/// The bit stream of `bytes` under the code table `codes`: the codes of the
/// bytes, one after the other, in the order of the input.
pub open spec fn encoded(codes: Seq<Seq<bool>>, bytes: Seq<u8>) -> Seq<bool>
    decreases bytes.len(),
{
    if bytes.len() == 0 {
        Seq::empty()
    } else {
        encoded(codes, bytes.drop_last()) + codes[bytes.last() as int]
    }
}

/// The bit at position `k` of `bits` as a number; beyond the end it is zero.
pub open spec fn bit_value(bits: Seq<bool>, k: int) -> nat {
    if 0 <= k < bits.len() && bits[k] {
        1
    } else {
        0
    }
}

/// The number that the `n` bits of `bits` from position `start` on spell,
/// the most significant first.
pub open spec fn bits_value(bits: Seq<bool>, start: int, n: nat) -> nat
    decreases n,
{
    if n == 0 {
        0
    } else {
        2 * bits_value(bits, start, (n - 1) as nat) + bit_value(bits, start + n - 1)
    }
}

/// How many bytes `n` bits take.
pub open spec fn packed_len(n: nat) -> nat {
    (n + 7) / 8
}

/// The bytes that `bits` are packed into: eight bits to a byte, the first bit
/// of the stream in the most significant place, and the last byte filled up
/// with zero bits in its low places.
pub open spec fn packed(bits: Seq<bool>) -> Seq<u8> {
    Seq::new(packed_len(bits.len()), |j: int| bits_value(bits, 8 * j, 8) as u8)
}

/// How many bits of the last packed byte are meaningful: 1 to 8, and 0 where
/// there is no bit at all.
pub open spec fn valid_bits(n: nat) -> nat {
    if n == 0 {
        0
    } else {
        ((n - 1) % 8 + 1) as nat
    }
}

/// The weight of place `r` of a byte, counted from the most significant.
pub open spec fn place_weight(r: nat) -> nat {
    if r == 0 {
        128
    } else if r == 1 {
        64
    } else if r == 2 {
        32
    } else if r == 3 {
        16
    } else if r == 4 {
        8
    } else if r == 5 {
        4
    } else if r == 6 {
        2
    } else {
        1
    }
}

/// The bit in place `r` of the byte `v`, counted from the most significant.
pub open spec fn byte_bit(v: u8, r: nat) -> bool {
    (v as nat / place_weight(r)) % 2 == 1
}

/// The bit stream that `payload` holds when `valid` bits of its last byte are
/// meaningful.
pub open spec fn unpacked(payload: Seq<u8>, valid: nat) -> Seq<bool> {
    if payload.len() == 0 {
        Seq::empty()
    } else {
        Seq::new(
            (8 * (payload.len() - 1) + valid) as nat,
            |k: int| byte_bit(payload[k / 8], (k % 8) as nat),
        )
    }
}

/// Fewer than `2^n` is what `n` bits can spell, for up to eight bits.
pub proof fn lemma_bits_value_bound(bits: Seq<bool>, start: int, n: nat)
    requires
        n <= 8,
    ensures
        n == 0 ==> bits_value(bits, start, n) == 0,
        n == 1 ==> bits_value(bits, start, n) < 2,
        n == 2 ==> bits_value(bits, start, n) < 4,
        n == 3 ==> bits_value(bits, start, n) < 8,
        n == 4 ==> bits_value(bits, start, n) < 16,
        n == 5 ==> bits_value(bits, start, n) < 32,
        n == 6 ==> bits_value(bits, start, n) < 64,
        n == 7 ==> bits_value(bits, start, n) < 128,
        n == 8 ==> bits_value(bits, start, n) < 256,
    decreases n,
{
    if n > 0 {
        lemma_bits_value_bound(bits, start, (n - 1) as nat);
    }
}

/// A byte spelled by eight bits gives each of them back.
pub proof fn lemma_byte_bit_of_value(bits: Seq<bool>, start: int, r: nat)
    requires
        r < 8,
    ensures
        bits_value(bits, start, 8) < 256,
        byte_bit(bits_value(bits, start, 8) as u8, r) == (bit_value(bits, start + r) == 1),
{
    let b0 = bit_value(bits, start);
    let b1 = bit_value(bits, start + 1);
    let b2 = bit_value(bits, start + 2);
    let b3 = bit_value(bits, start + 3);
    let b4 = bit_value(bits, start + 4);
    let b5 = bit_value(bits, start + 5);
    let b6 = bit_value(bits, start + 6);
    let b7 = bit_value(bits, start + 7);
    let v = bits_value(bits, start, 8);
    assert(v == 128 * b0 + 64 * b1 + 32 * b2 + 16 * b3 + 8 * b4 + 4 * b5 + 2 * b6 + b7) by {
        reveal_with_fuel(bits_value, 9);
    }
}

/// Unpacking what was packed gives the bit stream back.
pub proof fn lemma_unpack_packed(bits: Seq<bool>)
    ensures
        unpacked(packed(bits), valid_bits(bits.len())) == bits,
{
    let p = packed(bits);
    let u = unpacked(p, valid_bits(bits.len()));
    if bits.len() > 0 {
        assert(u.len() == bits.len());
        assert forall|k: int| 0 <= k < bits.len() implies u[k] == bits[k] by {
            lemma_byte_bit_of_value(bits, 8 * (k / 8), (k % 8) as nat);
        }
    }
    assert(u =~= bits);
}

/// Packing a bit stream takes away nothing that `packed_len` and
/// `valid_bits` do not give back.
pub proof fn lemma_packed_len(n: nat)
    ensures
        n > 0 ==> 8 * (packed_len(n) - 1) + valid_bits(n) == n,
        n > 0 ==> packed_len(n) > 0,
        n == 0 ==> packed_len(n) == 0,
{
}

/// Appends to `bits` the code of each byte of `bytes`.
pub fn encode_bits(bytes: &[u8], table: &Vec<Vec<bool>>) -> (bits: Vec<bool>)
    requires
        table.len() == 256,
    ensures
        bits@ == encoded(crate::codes::code_view(table@), bytes@),
{
    let ghost codes = crate::codes::code_view(table@);
    let mut bits: Vec<bool> = Vec::new();
    let mut i: usize = 0;
    while i < bytes.len()
        invariant
            i <= bytes.len(),
            table.len() == 256,
            codes == crate::codes::code_view(table@),
            bits@ == encoded(codes, bytes@.take(i as int)),
        decreases bytes.len() - i,
    {
        let code = &table[bytes[i] as usize];
        let ghost before = bits@;
        let mut j: usize = 0;
        while j < code.len()
            invariant
                j <= code.len(),
                bits@ == before + code@.take(j as int),
            decreases code.len() - j,
        {
            bits.push(code[j]);
            proof {
                assert(code@.take(j + 1) =~= code@.take(j as int).push(code@[j as int]));
                assert(bits@ =~= before + code@.take(j + 1));
            }
            j += 1;
        }
        proof {
            assert(code@.take(j as int) =~= code@);
            assert(bytes@.take(i + 1).drop_last() =~= bytes@.take(i as int));
        }
        i += 1;
    }
    proof {
        assert(bytes@.take(i as int) =~= bytes@);
    }
    bits
}

/// Packs `bits` into bytes, the first bit in the most significant place; a
/// last byte that is not full is filled up with zero bits and still written.
pub fn pack_bits(bits: &Vec<bool>) -> (out: Vec<u8>)
    ensures
        out@ == packed(bits@),
{
    let mut out: Vec<u8> = Vec::new();
    let mut buffer: u8 = 0;
    let mut held: u8 = 0;
    let mut i: usize = 0;
    while i < bits.len()
        invariant
            i <= bits.len(),
            held < 8,
            i == 8 * out.len() + held,
            buffer == bits_value(bits@, 8 * out.len(), held as nat),
            forall|j: int| 0 <= j < out.len() ==> out[j] == bits_value(bits@, 8 * j, 8) as u8,
        decreases bits.len() - i,
    {
        proof {
            lemma_bits_value_bound(bits@, 8 * out.len(), held as nat);
            lemma_bits_value_bound(bits@, 8 * out.len(), (held + 1) as nat);
        }
        buffer = buffer * 2 + if bits[i] { 1u8 } else { 0u8 };
        held += 1;
        if held == 8 {
            out.push(buffer);
            buffer = 0;
            held = 0;
        }
        i += 1;
    }
    if held > 0 {
        while held < 8
            invariant
                0 < held <= 8,
                bits.len() <= 8 * out.len() + held,
                buffer == bits_value(bits@, 8 * out.len(), held as nat),
            decreases 8 - held,
        {
            proof {
                lemma_bits_value_bound(bits@, 8 * out.len(), held as nat);
                lemma_bits_value_bound(bits@, 8 * out.len(), (held + 1) as nat);
            }
            buffer = buffer * 2;
            held += 1;
        }
        out.push(buffer);
    }
    proof {
        assert(out@ =~= packed(bits@));
    }
    out
}

/// The bit stream that `payload` holds when `valid` bits of its last byte are
/// meaningful.
pub fn unpack_bits(payload: &[u8], valid: u8) -> (bits: Vec<bool>)
    requires
        valid <= 8,
    ensures
        bits@ == unpacked(payload@, valid as nat),
{
    let mut bits: Vec<bool> = Vec::new();
    if payload.len() == 0 {
        return bits;
    }
    let last: usize = payload.len() - 1;
    let mut i: usize = 0;
    while i < payload.len()
        invariant
            i <= payload.len(),
            last == payload.len() - 1,
            valid <= 8,
            bits.len() == if i <= last { 8 * i } else { 8 * last + valid },
            forall|k: int| 0 <= k < bits.len() ==> bits[k] == byte_bit(payload[k / 8], (k % 8) as nat),
        decreases payload.len() - i,
    {
        let take: u8 = if i == last { valid } else { 8 };
        let byte: u8 = payload[i];
        let mut weight: u8 = 128;
        let mut r: u8 = 0;
        while r < take
            invariant
                r <= take <= 8,
                i < payload.len(),
                byte == payload[i as int],
                r < 8 ==> weight == place_weight(r as nat),
                bits.len() == 8 * i + r,
                forall|k: int| 0 <= k < bits.len() ==> bits[k] == byte_bit(payload[k / 8], (k % 8) as nat),
            decreases take - r,
        {
            bits.push((byte / weight) % 2 == 1);
            weight = weight / 2;
            r += 1;
        }
        i += 1;
    }
    proof {
        assert(bits@ =~= unpacked(payload@, valid as nat));
    }
    bits
}

} // verus!
