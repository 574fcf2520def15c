use huffman::bits::{encode_bits, pack_bits, unpack_bits};
use huffman::decode::{decode_bits, next_symbol};
use huffman::{
    byte_frequencies, code_table, freq_to_tree, huff_reduce, make_encoding_table, make_tree,
    HuffTree, HuffTreeData, Node,
};

fn leaf(b: u8, w: u64) -> HuffTree {
    HuffTree { weight: w, node: Node::Leaf(b) }
}

fn join(a: HuffTree, b: HuffTree) -> HuffTree {
    HuffTree {
        weight: a.weight + b.weight,
        node: Node::Tree(HuffTreeData { left: Box::new(a), right: Box::new(b) }),
    }
}

fn shape(t: &HuffTree) -> String {
    match &t.node {
        Node::Leaf(b) => format!("{}:{}", *b as char, t.weight),
        Node::Tree(d) => format!("({} {} {})", t.weight, shape(&d.left), shape(&d.right)),
    }
}

fn bits_of(text: &str) -> Vec<bool> {
    text.chars().map(|c| c == '1').collect()
}

fn empty_table() -> Vec<Vec<bool>> {
    vec![Vec::new(); 256]
}

#[test]
fn frequencies_count_each_value() {
    let counts = byte_frequencies(b"abracadabra");
    assert_eq!(counts.len(), 256);
    assert_eq!(counts[b'a' as usize], 5);
    assert_eq!(counts[b'b' as usize], 2);
    assert_eq!(counts[b'r' as usize], 2);
    assert_eq!(counts[b'c' as usize], 1);
    assert_eq!(counts[b'd' as usize], 1);
    assert_eq!(counts.iter().sum::<u64>(), 11);
    assert_eq!(counts.iter().filter(|c| **c > 0).count(), 5);
}

#[test]
fn frequencies_of_empty_input_are_zero() {
    assert_eq!(byte_frequencies(&[]), vec![0u64; 256]);
}

#[test]
fn frequencies_cover_value_255() {
    let counts = byte_frequencies(&[255, 0, 255]);
    assert_eq!(counts[255], 2);
    assert_eq!(counts[0], 1);
}

#[test]
fn forest_holds_occurring_values_in_order() {
    let trees = freq_to_tree(byte_frequencies(b"abracadabra"));
    let shapes: Vec<String> = trees.iter().map(shape).collect();
    assert_eq!(shapes, vec!["a:5", "b:2", "c:1", "d:1", "r:2"]);
    assert!(freq_to_tree(vec![0u64; 256]).is_empty());
}

#[test]
fn reduce_joins_the_two_lightest_first() {
    let tree = huff_reduce(freq_to_tree(byte_frequencies(b"abracadabra")));
    assert_eq!(shape(&tree), "(11 a:5 (6 (2 c:1 d:1) (4 b:2 r:2)))");
}

#[test]
fn reduce_breaks_ties_by_position() {
    let tree = huff_reduce(vec![leaf(b'x', 1), leaf(b'y', 1), leaf(b'z', 1)]);
    assert_eq!(shape(&tree), "(3 z:1 (2 x:1 y:1))");
    let tree = huff_reduce(vec![leaf(b'x', 2), leaf(b'y', 1), leaf(b'z', 1), leaf(b'w', 2)]);
    assert_eq!(shape(&tree), "(6 (2 y:1 z:1) (4 x:2 w:2))");
}

#[test]
fn reduce_of_one_tree_is_that_tree() {
    assert_eq!(shape(&huff_reduce(vec![leaf(b'q', 4)])), "q:4");
}

#[test]
fn make_tree_of_empty_input_is_none() {
    assert!(make_tree(&[]).is_none());
}

#[test]
fn make_tree_of_single_symbol_is_a_leaf() {
    let tree = make_tree(&[0x41; 50]).unwrap();
    assert_eq!(shape(&tree), "A:50");
}

#[test]
fn make_tree_of_abracadabra() {
    let tree = make_tree(b"abracadabra").unwrap();
    assert_eq!(shape(&tree), "(11 a:5 (6 (2 c:1 d:1) (4 b:2 r:2)))");
}

#[test]
fn abracadabra_codes() {
    let table = code_table(&make_tree(b"abracadabra").unwrap());
    assert_eq!(table.len(), 256);
    assert_eq!(table[b'a' as usize], bits_of("0"));
    assert_eq!(table[b'c' as usize], bits_of("100"));
    assert_eq!(table[b'd' as usize], bits_of("101"));
    assert_eq!(table[b'b' as usize], bits_of("110"));
    assert_eq!(table[b'r' as usize], bits_of("111"));
    assert!(table[b'a' as usize].len() <= table[b'b' as usize].len());
    assert_eq!(table[b'b' as usize].len(), table[b'r' as usize].len());
    assert!(table[b'r' as usize].len() <= table[b'c' as usize].len());
    assert_eq!(table[b'c' as usize].len(), table[b'd' as usize].len());
    assert_eq!(table.iter().filter(|c| !c.is_empty()).count(), 5);
}

#[test]
fn single_leaf_gets_one_bit_code() {
    let table = code_table(&leaf(0x41, 50));
    assert_eq!(table[0x41], vec![false]);
    assert_eq!(table.iter().filter(|c| !c.is_empty()).count(), 1);
}

#[test]
fn encoding_table_keeps_prefix_and_other_entries() {
    let tree = join(leaf(1, 1), join(leaf(2, 1), leaf(3, 1)));
    let mut table = empty_table();
    table[9] = vec![true, true, true];
    make_encoding_table(&tree, &mut table, vec![true, false]);
    assert_eq!(table[1], bits_of("100"));
    assert_eq!(table[2], bits_of("1010"));
    assert_eq!(table[3], bits_of("1011"));
    assert_eq!(table[9], bits_of("111"));
    assert_eq!(table.iter().filter(|c| !c.is_empty()).count(), 4);
}

#[test]
fn encoding_table_of_leaf_with_prefix_binds_prefix() {
    let mut table = empty_table();
    make_encoding_table(&leaf(5, 1), &mut table, vec![true]);
    assert_eq!(table[5], vec![true]);
    make_encoding_table(&leaf(6, 1), &mut table, Vec::new());
    assert_eq!(table[6], vec![false]);
}

#[test]
fn codes_are_prefix_free() {
    let mut input: Vec<u8> = (0..=255u8).collect();
    input.extend_from_slice(b"the quick brown fox jumps over the lazy dog");
    input.extend(vec![7u8; 300]);
    let table = code_table(&make_tree(&input).unwrap());
    for a in 0..256 {
        assert!(!table[a].is_empty());
        for b in 0..256 {
            if a != b {
                assert!(!table[b].starts_with(&table[a]));
            }
        }
    }
}

#[test]
fn dominant_byte_has_shortest_code() {
    let mut input = vec![7u8; 1000];
    input.extend((0..=255u8).filter(|v| *v != 7));
    let table = code_table(&make_tree(&input).unwrap());
    let shortest = table.iter().map(|c| c.len()).min().unwrap();
    assert_eq!(table[7].len(), shortest);
    assert_eq!(table[7].len(), 1);
    for v in 0..256 {
        assert!(table[v].len() >= 1);
        if v != 7 {
            assert!(table[v].len() > table[7].len());
        }
    }
}

#[test]
fn encode_concatenates_codes() {
    let table = code_table(&make_tree(b"abracadabra").unwrap());
    assert_eq!(encode_bits(b"abracadabra", &table), bits_of("01101110100010101101110"));
    assert_eq!(encode_bits(b"", &table), Vec::<bool>::new());
    assert_eq!(encode_bits(b"ca", &table), bits_of("1000"));
}

#[test]
fn pack_fills_last_byte_with_zero_bits() {
    assert_eq!(pack_bits(&bits_of("")), Vec::<u8>::new());
    assert_eq!(pack_bits(&bits_of("1")), vec![0x80]);
    assert_eq!(pack_bits(&bits_of("1111111")), vec![0xfe]);
    assert_eq!(pack_bits(&bits_of("11111111")), vec![0xff]);
    assert_eq!(pack_bits(&bits_of("111111111")), vec![0xff, 0x80]);
    assert_eq!(pack_bits(&bits_of("01101110100010101101110")), vec![110, 138, 220]);
    assert_eq!(pack_bits(&bits_of("0000000100000010")), vec![1, 2]);
}

#[test]
fn unpack_reads_most_significant_bit_first() {
    assert_eq!(unpack_bits(&[], 0), Vec::<bool>::new());
    assert_eq!(unpack_bits(&[0x80], 1), bits_of("1"));
    assert_eq!(unpack_bits(&[0xa5], 8), bits_of("10100101"));
    assert_eq!(unpack_bits(&[0xa5, 0xc0], 2), bits_of("1010010111"));
    assert_eq!(unpack_bits(&[110, 138, 220], 7), bits_of("01101110100010101101110"));
    assert_eq!(unpack_bits(&[0xff], 0), Vec::<bool>::new());
}

#[test]
fn unpack_undoes_pack() {
    for n in 0..40usize {
        let bits: Vec<bool> = (0..n).map(|k| (k * 7 + n) % 3 == 0).collect();
        let valid = if n == 0 { 0 } else { ((n - 1) % 8 + 1) as u8 };
        assert_eq!(unpack_bits(&pack_bits(&bits), valid), bits);
    }
}

#[test]
fn next_symbol_walks_to_a_leaf() {
    let tree = make_tree(b"abracadabra").unwrap();
    let bits = bits_of("0110111");
    assert_eq!(next_symbol(&tree, &bits, 0), Some((b'a', 1)));
    assert_eq!(next_symbol(&tree, &bits, 1), Some((b'b', 4)));
    assert_eq!(next_symbol(&tree, &bits, 4), Some((b'r', 7)));
    assert_eq!(next_symbol(&tree, &bits, 5), None);
    assert_eq!(next_symbol(&tree, &bits, 6), None);
}

#[test]
fn next_symbol_in_single_leaf_tree() {
    let tree = leaf(0x41, 2);
    let bits = bits_of("01");
    assert_eq!(next_symbol(&tree, &bits, 0), Some((0x41, 1)));
    assert_eq!(next_symbol(&tree, &bits, 1), None);
}

#[test]
fn decode_spells_symbols() {
    let tree = make_tree(b"abracadabra").unwrap();
    assert_eq!(
        decode_bits(&tree, &bits_of("01101110100010101101110")),
        Some(b"abracadabra".to_vec())
    );
    assert_eq!(decode_bits(&tree, &bits_of("")), Some(Vec::new()));
    assert_eq!(decode_bits(&tree, &bits_of("011")), None);
    assert_eq!(decode_bits(&tree, &bits_of("0110")), Some(b"ab".to_vec()));
}

#[test]
fn deep_tree_keeps_codes_short_enough() {
    let mut input = Vec::new();
    let (mut a, mut b) = (1usize, 1usize);
    for v in 0..20u8 {
        input.extend(vec![v; a]);
        let next = a + b;
        a = b;
        b = next;
    }
    let tree = make_tree(&input).unwrap();
    assert_eq!(tree.weight, input.len() as u64);
    let table = code_table(&tree);
    let longest = table.iter().map(|c| c.len()).max().unwrap();
    assert_eq!(longest, 19);
    assert!(longest <= 255);
    assert_eq!(table.iter().filter(|c| !c.is_empty()).count(), 20);
    assert_eq!(table[19].len(), 1);
}

#[test]
fn byte_with_half_of_the_input_gets_one_bit() {
    let table = code_table(&make_tree(b"aaaabcde").unwrap());
    assert_eq!(table[b'a' as usize].len(), 1);
    for v in [b'b', b'c', b'd', b'e'] {
        assert!(table[v as usize].len() >= 1);
    }
}
