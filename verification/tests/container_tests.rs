use huffman::{compress, decompress, DecodeError};

const TABLE_LEN: usize = 2048;

fn count_of(container: &[u8], v: u8) -> u64 {
    let at = 8 * v as usize;
    let mut word = [0u8; 8];
    word.copy_from_slice(&container[at..at + 8]);
    u64::from_le_bytes(word)
}

fn container_with(counts: &[(u8, u64)], valid: u8, payload: &[u8]) -> Vec<u8> {
    let mut out = vec![0u8; TABLE_LEN];
    for (v, c) in counts {
        let at = 8 * *v as usize;
        out[at..at + 8].copy_from_slice(&c.to_le_bytes());
    }
    out.push(valid);
    out.extend_from_slice(payload);
    out
}

fn scrambled(n: usize) -> Vec<u8> {
    let mut state: u32 = 12345;
    let mut out = Vec::new();
    for _ in 0..n {
        state = state.wrapping_mul(1103515245).wrapping_add(12345);
        let r = (state >> 16) as u8;
        out.push(if r < 128 { r % 4 } else if r < 200 { r % 16 } else { r });
    }
    out
}

#[test]
fn round_trip_abracadabra() {
    let input = b"abracadabra";
    assert_eq!(decompress(&compress(input)), Ok(input.to_vec()));
}

#[test]
fn round_trip_every_byte_value() {
    let input: Vec<u8> = (0..=255u8).collect();
    assert_eq!(decompress(&compress(&input)), Ok(input));
}

#[test]
fn round_trip_mixed_input() {
    for n in [1usize, 2, 3, 7, 8, 9, 100, 1000, 5000] {
        let input = scrambled(n);
        assert_eq!(decompress(&compress(&input)), Ok(input));
    }
}

#[test]
fn round_trip_two_symbols() {
    assert_eq!(decompress(&compress(b"ab")), Ok(b"ab".to_vec()));
    assert_eq!(decompress(&compress(b"aab")), Ok(b"aab".to_vec()));
}

#[test]
fn compress_is_deterministic() {
    let input = scrambled(3000);
    assert_eq!(compress(&input), compress(&input));
    assert_eq!(compress(b"abracadabra"), compress(b"abracadabra"));
}

#[test]
fn empty_input_gives_header_only_container() {
    let container = compress(&[]);
    assert_eq!(container, vec![0u8; TABLE_LEN + 1]);
    assert_eq!(decompress(&container), Ok(Vec::new()));
}

#[test]
fn single_symbol_input_uses_one_bit_per_byte() {
    let input = vec![0x41u8; 50];
    let container = compress(&input);
    assert_eq!(count_of(&container, 0x41), 50);
    assert_eq!(container[TABLE_LEN], 2);
    assert_eq!(&container[TABLE_LEN + 1..], &[0u8; 7]);
    assert_eq!(decompress(&container), Ok(input));
}

#[test]
fn single_byte_input() {
    let container = compress(&[9]);
    assert_eq!(container[TABLE_LEN], 1);
    assert_eq!(&container[TABLE_LEN + 1..], &[0u8]);
    assert_eq!(decompress(&container), Ok(vec![9]));
}

#[test]
fn abracadabra_container_is_bit_exact() {
    let container = compress(b"abracadabra");
    assert_eq!(container.len(), TABLE_LEN + 1 + 3);
    for v in 0..=255u8 {
        let expected = match v {
            b'a' => 5,
            b'b' => 2,
            b'r' => 2,
            b'c' => 1,
            b'd' => 1,
            _ => 0,
        };
        assert_eq!(count_of(&container, v), expected);
    }
    assert_eq!(container[TABLE_LEN], 7);
    assert_eq!(&container[TABLE_LEN + 1..], &[110u8, 138, 220]);
    let payload_bits = 8 * (container.len() - TABLE_LEN - 2) + container[TABLE_LEN] as usize;
    assert_eq!(payload_bits, 23);
    assert!(payload_bits < 11 * 8);
}

#[test]
fn two_symbol_containers_are_bit_exact() {
    let ab = compress(b"ab");
    assert_eq!(ab[TABLE_LEN], 2);
    assert_eq!(&ab[TABLE_LEN + 1..], &[0b0100_0000u8]);
    let aab = compress(b"aab");
    assert_eq!(aab[TABLE_LEN], 3);
    assert_eq!(&aab[TABLE_LEN + 1..], &[0b1100_0000u8]);
}

#[test]
fn full_last_byte_is_marked_eight() {
    let input = vec![1u8; 16];
    let container = compress(&input);
    assert_eq!(container[TABLE_LEN], 8);
    assert_eq!(container.len(), TABLE_LEN + 1 + 2);
    assert_eq!(decompress(&container), Ok(input));
}

#[test]
fn truncated_payload_is_detected() {
    for input in [b"abracadabra".to_vec(), vec![0x41u8; 50], vec![3u8], scrambled(777)] {
        let mut container = compress(&input);
        assert!(container.len() > TABLE_LEN + 1);
        container.pop();
        assert_eq!(decompress(&container), Err(DecodeError::TruncatedContainer));
    }
}

#[test]
fn short_container_is_malformed() {
    assert_eq!(decompress(&[]), Err(DecodeError::MalformedHeader));
    assert_eq!(decompress(&vec![0u8; TABLE_LEN]), Err(DecodeError::MalformedHeader));
    assert_eq!(decompress(&vec![0u8; 100]), Err(DecodeError::MalformedHeader));
}

#[test]
fn bit_count_above_eight_is_malformed() {
    let container = container_with(&[(1, 1), (2, 1)], 9, &[0x40]);
    assert_eq!(decompress(&container), Err(DecodeError::MalformedHeader));
}

#[test]
fn payload_without_meaningful_bits_is_malformed() {
    let container = container_with(&[(1, 1), (2, 1)], 0, &[0x40]);
    assert_eq!(decompress(&container), Err(DecodeError::MalformedHeader));
}

#[test]
fn counts_that_overflow_are_malformed() {
    let container = container_with(&[(1, u64::MAX), (2, 1)], 2, &[0x40]);
    assert_eq!(decompress(&container), Err(DecodeError::MalformedHeader));
}

#[test]
fn payload_without_counts_is_malformed() {
    let container = container_with(&[], 2, &[0x40]);
    assert_eq!(decompress(&container), Err(DecodeError::MalformedHeader));
}

#[test]
fn missing_payload_is_truncated() {
    let container = container_with(&[(1, 1), (2, 1)], 2, &[]);
    assert_eq!(decompress(&container), Err(DecodeError::TruncatedContainer));
    let container = container_with(&[(1, 1), (2, 1)], 0, &[]);
    assert_eq!(decompress(&container), Err(DecodeError::TruncatedContainer));
}

#[test]
fn payload_that_ends_within_a_symbol_is_truncated() {
    // a: 0, c: 100, d: 101, b: 110, r: 111; two bits "10" end within a symbol.
    let counts = [(b'a', 5), (b'b', 2), (b'r', 2), (b'c', 1), (b'd', 1)];
    let container = container_with(&counts, 2, &[0b1000_0000]);
    assert_eq!(decompress(&container), Err(DecodeError::TruncatedContainer));
}

#[test]
fn wrong_number_of_symbols_is_truncated() {
    let container = container_with(&[(1, 2), (2, 1)], 2, &[0x40]);
    assert_eq!(decompress(&container), Err(DecodeError::TruncatedContainer));
    let container = container_with(&[(1, 1), (2, 1)], 3, &[0x40]);
    assert_eq!(decompress(&container), Err(DecodeError::TruncatedContainer));
}

#[test]
fn one_bit_in_single_leaf_tree_is_truncated() {
    let container = container_with(&[(0x41, 3)], 3, &[0b0100_0000]);
    assert_eq!(decompress(&container), Err(DecodeError::TruncatedContainer));
    let container = container_with(&[(0x41, 3)], 3, &[0b0000_0000]);
    assert_eq!(decompress(&container), Ok(vec![0x41; 3]));
}

#[test]
fn padding_bits_are_ignored() {
    let container = container_with(&[(b'a', 1), (b'b', 1)], 2, &[0b0111_1111]);
    assert_eq!(decompress(&container), Ok(b"ab".to_vec()));
}

#[test]
fn counts_sum_to_input_length() {
    let input = scrambled(4321);
    let container = compress(&input);
    let mut total = 0u64;
    for v in 0..=255u8 {
        total += count_of(&container, v);
    }
    assert_eq!(total, 4321);
}
