//! Walking a bit stream through the code tree.

use vstd::prelude::*;
use crate::bits::encoded;
use crate::codes::{is_code_of, leads};
use crate::tree::{HuffTree, Node};

verus! {

/// Where the bits of `bits` from position `i` on lead from the root of `t`:
/// the value of the leaf reached and the position after the last bit used, or
/// nothing if the bits end before a leaf is reached.
pub open spec fn walk(t: HuffTree, bits: Seq<bool>, i: int) -> Option<(u8, int)>
    decreases t,
{
    match t.node {
        Node::Leaf(b) => Some((b, i)),
        Node::Tree(d) => if 0 <= i < bits.len() {
            walk(
                if bits[i] {
                    *d.right
                } else {
                    *d.left
                },
                bits,
                i + 1,
            )
        } else {
            None
        },
    }
}

/// The symbol that starts at position `i`, with the position after it. In a
/// tree that is one leaf, a symbol is the one bit `false`.
pub open spec fn decode_symbol(root: HuffTree, bits: Seq<bool>, i: int) -> Option<(u8, int)> {
    match root.node {
        Node::Leaf(b) => if 0 <= i < bits.len() && !bits[i] {
            Some((b, i + 1))
        } else {
            None
        },
        Node::Tree(_) => walk(root, bits, i),
    }
}

/// The symbols that the bits from position `i` on spell, or nothing if they
/// leave the tree or end within a symbol.
pub open spec fn decode_from(root: HuffTree, bits: Seq<bool>, i: int) -> Option<Seq<u8>>
    decreases bits.len() - i,
    via decode_from_decreases
{
    if i < 0 || i >= bits.len() {
        Some(Seq::empty())
    } else {
        match decode_symbol(root, bits, i) {
            None => None,
            Some((b, next)) => match decode_from(root, bits, next) {
                None => None,
                Some(rest) => Some(seq![b] + rest),
            },
        }
    }
}

#[via_fn]
proof fn decode_from_decreases(root: HuffTree, bits: Seq<bool>, i: int) {
    if 0 <= i < bits.len() {
        lemma_symbol_advances(root, bits, i);
    }
}

/// A walk never goes back, and one through a tree that is no leaf uses a bit
/// of the stream.
pub proof fn lemma_walk_advances(t: HuffTree, bits: Seq<bool>, i: int)
    ensures
        walk(t, bits, i) matches Some((_, next)) ==> i <= next,
        walk(t, bits, i) matches Some((_, next)) ==> t.node is Tree ==> i < next <= bits.len(),
    decreases t,
{
    match t.node {
        Node::Leaf(b) => {},
        Node::Tree(d) => {
            if 0 <= i < bits.len() {
                lemma_walk_advances(if bits[i] { *d.right } else { *d.left }, bits, i + 1);
            }
        },
    }
}

/// A symbol takes at least one bit and ends within the stream.
pub proof fn lemma_symbol_advances(root: HuffTree, bits: Seq<bool>, i: int)
    ensures
        decode_symbol(root, bits, i) matches Some((_, next)) ==> i < next <= bits.len(),
{
    lemma_walk_advances(root, bits, i);
}

/// Where a code stands in the bit stream, the walk from its first bit reaches
/// the leaf that the code leads to and ends after its last bit.
pub proof fn lemma_walk_code(t: HuffTree, code: Seq<bool>, k: int, b: u8, bits: Seq<bool>, at: int)
    requires
        leads(t, code, k, b),
        0 <= k <= code.len(),
        0 <= at,
        at + code.len() <= bits.len(),
        forall|j: int| k <= j < code.len() ==> bits[at + j] == code[j],
    ensures
        walk(t, bits, at + k) == Some((b, at + code.len())),
    decreases t,
{
    match t.node {
        Node::Leaf(x) => {},
        Node::Tree(d) => {
            assert(bits[at + k] == code[k]);
            lemma_walk_code(if code[k] { *d.right } else { *d.left }, code, k + 1, b, bits, at);
        },
    }
}

/// The bit stream of a beginning of the input is a beginning of the bit
/// stream of the whole input.
pub proof fn lemma_encoded_prefix(codes: Seq<Seq<bool>>, bytes: Seq<u8>, k: int)
    requires
        0 <= k <= bytes.len(),
    ensures
        encoded(codes, bytes.take(k)).len() <= encoded(codes, bytes).len(),
        forall|i: int|
            0 <= i < encoded(codes, bytes.take(k)).len() ==> encoded(codes, bytes)[i] == encoded(
                codes,
                bytes.take(k),
            )[i],
    decreases bytes.len(),
{
    if k == bytes.len() {
        assert(bytes.take(k) =~= bytes);
    } else {
        assert(bytes.drop_last().take(k) =~= bytes.take(k));
        lemma_encoded_prefix(codes, bytes.drop_last(), k);
    }
}

/// Decoding the bit stream of `bytes` from where the code of its byte `k`
/// starts gives the bytes from `k` on, if the table holds a code of the tree
/// for each byte of the input.
pub proof fn lemma_decode_encoded(root: HuffTree, codes: Seq<Seq<bool>>, bytes: Seq<u8>, k: int)
    requires
        0 <= k <= bytes.len(),
        forall|i: int| 0 <= i < bytes.len() ==> is_code_of(root, codes[bytes[i] as int], bytes[i]),
    ensures
        decode_from(root, encoded(codes, bytes), encoded(codes, bytes.take(k)).len() as int)
            == Some(bytes.skip(k)),
    decreases bytes.len() - k,
{
    let all = encoded(codes, bytes);
    let at = encoded(codes, bytes.take(k)).len() as int;
    lemma_encoded_prefix(codes, bytes, k);
    if k == bytes.len() {
        assert(bytes.take(k) =~= bytes);
        assert(bytes.skip(k) =~= Seq::<u8>::empty());
    } else {
        let b = bytes[k];
        let code = codes[b as int];
        assert(is_code_of(root, code, b));
        assert(bytes.take(k + 1).drop_last() =~= bytes.take(k));
        assert(encoded(codes, bytes.take(k + 1)) == encoded(codes, bytes.take(k)) + code);
        lemma_encoded_prefix(codes, bytes, k + 1);
        assert forall|j: int| 0 <= j < code.len() implies all[at + j] == code[j] by {
            assert(encoded(codes, bytes.take(k + 1))[at + j] == code[j]);
        }
        match root.node {
            Node::Leaf(x) => {
                assert(code[0] == false);
                assert(all[at + 0] == code[0]);
            },
            Node::Tree(_) => {
                lemma_walk_code(root, code, 0, b, all, at);
            },
        }
        assert(decode_symbol(root, all, at) == Some((b, at + code.len())));
        lemma_decode_encoded(root, codes, bytes, k + 1);
        assert(seq![b] + bytes.skip(k + 1) =~= bytes.skip(k));
    }
}

/// Whether `short` is a beginning of `long`.
pub open spec fn begins(long: Seq<bool>, short: Seq<bool>) -> bool {
    &&& short.len() <= long.len()
    &&& forall|k: int| 0 <= k < short.len() ==> short[k] == long[k]
}

/// A walk that reaches a leaf within a beginning of a stream reaches the same
/// leaf in the whole stream.
pub proof fn lemma_walk_in_longer(t: HuffTree, short: Seq<bool>, long: Seq<bool>, i: int)
    requires
        begins(long, short),
        walk(t, short, i) is Some,
    ensures
        walk(t, long, i) == walk(t, short, i),
    decreases t,
{
    match t.node {
        Node::Leaf(b) => {},
        Node::Tree(d) => {
            lemma_walk_in_longer(if short[i] { *d.right } else { *d.left }, short, long, i + 1);
        },
    }
}

/// A beginning of a stream that decodes spells no more symbols than the whole
/// stream, and as many only if it is the whole stream.
pub proof fn lemma_decode_shorter(root: HuffTree, short: Seq<bool>, long: Seq<bool>, i: int)
    requires
        begins(long, short),
        0 <= i <= short.len(),
        decode_from(root, short, i) is Some,
        decode_from(root, long, i) is Some,
    ensures
        decode_from(root, short, i).unwrap().len() <= decode_from(root, long, i).unwrap().len(),
        decode_from(root, short, i).unwrap().len() == decode_from(root, long, i).unwrap().len()
            ==> short.len() == long.len(),
    decreases short.len() - i,
{
    if i < short.len() {
        lemma_symbol_advances(root, short, i);
        if root.node is Tree {
            lemma_walk_in_longer(root, short, long, i);
        }
        let next = decode_symbol(root, short, i).unwrap().1;
        assert(decode_symbol(root, long, i) == decode_symbol(root, short, i));
        lemma_decode_shorter(root, short, long, next);
    }
}

/// The symbol that starts at bit `start`, with the position after it, or
/// nothing if the bits leave the tree or end within the symbol.
pub fn next_symbol(tree: &HuffTree, bits: &Vec<bool>, start: usize) -> (found: Option<(u8, usize)>)
    ensures
        match found {
            Some((b, next)) => decode_symbol(*tree, bits@, start as int) == Some((b, next as int)),
            None => decode_symbol(*tree, bits@, start as int) is None,
        },
{
    if start >= bits.len() {
        return None;
    }
    if let Node::Leaf(b) = &tree.node {
        return if bits[start] { None } else { Some((*b, start + 1)) };
    }
    let mut cur: &HuffTree = tree;
    let mut i: usize = start;
    loop
        invariant
            start <= i <= bits.len(),
            walk(*cur, bits@, i as int) == walk(*tree, bits@, start as int),
            tree.node is Tree,
        decreases bits.len() - i,
    {
        match &cur.node {
            Node::Leaf(b) => {
                return Some((*b, i));
            },
            Node::Tree(d) => {
                if i >= bits.len() {
                    return None;
                }
                cur = if bits[i] { &d.right } else { &d.left };
                i += 1;
            },
        }
    }
}

/// The symbols that `bits` spell in `tree`, or nothing if the bits leave the
/// tree or end within a symbol.
pub fn decode_bits(tree: &HuffTree, bits: &Vec<bool>) -> (out: Option<Vec<u8>>)
    ensures
        match out {
            Some(symbols) => decode_from(*tree, bits@, 0) == Some(symbols@),
            None => decode_from(*tree, bits@, 0) is None,
        },
{
    let mut symbols: Vec<u8> = Vec::new();
    let mut i: usize = 0;
    while i < bits.len()
        invariant
            i <= bits.len(),
            decode_from(*tree, bits@, 0) == match decode_from(*tree, bits@, i as int) {
                None => None::<Seq<u8>>,
                Some(rest) => Some(symbols@ + rest),
            },
        decreases bits.len() - i,
    {
        proof {
            lemma_symbol_advances(*tree, bits@, i as int);
        }
        match next_symbol(tree, bits, i) {
            None => {
                return None;
            },
            Some((b, next)) => {
                proof {
                    let before = symbols@;
                    assert forall|rest: Seq<u8>| before + (seq![b] + rest) == #[trigger] (before.push(b) + rest) by {
                        assert(before + (seq![b] + rest) =~= before.push(b) + rest);
                    }
                }
                symbols.push(b);
                i = next;
            },
        }
    }
    proof {
        assert(symbols@ + Seq::<u8>::empty() =~= symbols@);
    }
    Some(symbols)
}

} // verus!
