//! The code table: which bits stand for which byte value.

use vstd::prelude::*;
use crate::frequency::{count_sum, lemma_count_le_sum};
use crate::tree::{
    has_leaf, leaf_count, leaf_forest, lemma_forest_leaf_count, lemma_leaf_count_positive,
    lemma_leaf_forest_weight, lemma_reduce_leaf_count, lemma_tree_dominant, lemma_tree_leaves,
    tree_of_counts, HuffTree, Node,
};

verus! {

/// The codes that a table of 256 bit vectors holds, by byte value. An empty
/// code means that the byte value has none.
pub open spec fn code_view(table: Seq<Vec<bool>>) -> Seq<Seq<bool>> {
    Seq::new(table.len(), |v: int| table[v]@)
}

/// The table without any code.
pub open spec fn empty_table() -> Seq<Seq<bool>> {
    Seq::new(256, |v: int| Seq::<bool>::empty())
}

/// The table after a walk through `t`, left before right, that started from
/// `table` with `prefix` as the bits on the way to `t`: each leaf binds its
/// byte value to the bits on the way to it, `false` for left and `true` for
/// right. A leaf that is reached by no bit at all gets the one-bit code
/// `false`.
pub open spec fn assign_codes(t: HuffTree, prefix: Seq<bool>, table: Seq<Seq<bool>>) -> Seq<
    Seq<bool>,
>
    decreases t,
{
    match t.node {
        Node::Leaf(b) => table.update(
            b as int,
            if prefix.len() == 0 {
                seq![false]
            } else {
                prefix
            },
        ),
        Node::Tree(d) => assign_codes(
            *d.right,
            prefix.push(true),
            assign_codes(*d.left, prefix.push(false), table),
        ),
    }
}

/// The code table of the tree `t`.
pub open spec fn code_table_of(t: HuffTree) -> Seq<Seq<bool>> {
    assign_codes(t, Seq::empty(), empty_table())
}

/// Whether `code` begins with all of `prefix`.
pub open spec fn starts_with(code: Seq<bool>, prefix: Seq<bool>) -> bool {
    &&& prefix.len() <= code.len()
    &&& forall|i: int| 0 <= i < prefix.len() ==> code[i] == prefix[i]
}

/// Whether the bits of `code` from position `k` on lead from the root of `t`
/// to a leaf with value `b`, and end there.
pub open spec fn leads(t: HuffTree, code: Seq<bool>, k: int, b: u8) -> bool
    decreases t,
{
    match t.node {
        Node::Leaf(x) => k == code.len() && x == b,
        Node::Tree(d) => 0 <= k < code.len() && leads(
            if code[k] {
                *d.right
            } else {
                *d.left
            },
            code,
            k + 1,
            b,
        ),
    }
}

/// Whether `code` is a code for `b` in the tree `t`: the way to a leaf with
/// value `b`, or the one bit `false` where `t` is that leaf itself.
pub open spec fn is_code_of(t: HuffTree, code: Seq<bool>, b: u8) -> bool {
    match t.node {
        Node::Leaf(x) => x == b && code == seq![false],
        Node::Tree(_) => leads(t, code, 0, b),
    }
}

/// What a walk through a subtree does to one entry of the table: a byte value
/// with a leaf in `t` gets a code that begins with `prefix` and goes on to
/// such a leaf; every other entry stays.
pub proof fn lemma_assign_codes(t: HuffTree, prefix: Seq<bool>, table: Seq<Seq<bool>>, b: u8)
    requires
        prefix.len() > 0,
        table.len() == 256,
    ensures
        assign_codes(t, prefix, table).len() == 256,
        has_leaf(t, b) ==> starts_with(assign_codes(t, prefix, table)[b as int], prefix) && leads(
            t,
            assign_codes(t, prefix, table)[b as int],
            prefix.len() as int,
            b,
        ),
        !has_leaf(t, b) ==> assign_codes(t, prefix, table)[b as int] == table[b as int],
    decreases t,
{
    match t.node {
        Node::Leaf(x) => {},
        Node::Tree(d) => {
            let mid = assign_codes(*d.left, prefix.push(false), table);
            lemma_assign_codes(*d.left, prefix.push(false), table, b);
            lemma_assign_codes(*d.right, prefix.push(true), mid, b);
            let out = assign_codes(t, prefix, table);
            let n = prefix.len() as int;
            if has_leaf(*d.right, b) {
                assert(out[b as int][n] == prefix.push(true)[n]);
                assert forall|i: int| 0 <= i < n implies out[b as int][i] == prefix[i] by {
                    assert(prefix.push(true)[i] == prefix[i]);
                }
            } else if has_leaf(*d.left, b) {
                assert(out[b as int][n] == prefix.push(false)[n]);
                assert forall|i: int| 0 <= i < n implies out[b as int][i] == prefix[i] by {
                    assert(prefix.push(false)[i] == prefix[i]);
                }
            }
        },
    }
}

/// The code table of a tree gives each byte value with a leaf a code for it,
/// and no code to any other.
pub proof fn lemma_code_table(t: HuffTree, b: u8)
    ensures
        code_table_of(t).len() == 256,
        has_leaf(t, b) ==> is_code_of(t, code_table_of(t)[b as int], b),
        has_leaf(t, b) ==> code_table_of(t)[b as int].len() > 0,
        !has_leaf(t, b) ==> code_table_of(t)[b as int].len() == 0,
{
    let none = Seq::<bool>::empty();
    match t.node {
        Node::Leaf(x) => {},
        Node::Tree(d) => {
            let mid = assign_codes(*d.left, none.push(false), empty_table());
            lemma_assign_codes(*d.left, none.push(false), empty_table(), b);
            lemma_assign_codes(*d.right, none.push(true), mid, b);
            let out = code_table_of(t);
            if has_leaf(*d.right, b) {
                assert(out[b as int][0] == none.push(true)[0]);
            } else if has_leaf(*d.left, b) {
                assert(out[b as int][0] == none.push(false)[0]);
            }
        },
    }
}

/// Two ways through one tree that end at leaves, of which one begins with all
/// of the other, end at the same leaf.
pub proof fn lemma_leads_unique(t: HuffTree, short: Seq<bool>, long: Seq<bool>, k: int, a: u8, b: u8)
    requires
        leads(t, short, k, a),
        leads(t, long, k, b),
        starts_with(long, short),
    ensures
        a == b,
        short.len() == long.len(),
    decreases t,
{
    match t.node {
        Node::Leaf(x) => {},
        Node::Tree(d) => {
            if short[k] {
                lemma_leads_unique(*d.right, short, long, k + 1, a, b);
            } else {
                lemma_leads_unique(*d.left, short, long, k + 1, a, b);
            }
        },
    }
}

/// The codes of a tree are prefix-free: the code of one byte value never
/// begins with the whole code of another.
pub proof fn lemma_codes_prefix_free(t: HuffTree, a: u8, b: u8)
    requires
        a != b,
        has_leaf(t, a),
        has_leaf(t, b),
    ensures
        !starts_with(code_table_of(t)[b as int], code_table_of(t)[a as int]),
{
    lemma_code_table(t, a);
    lemma_code_table(t, b);
    if starts_with(code_table_of(t)[b as int], code_table_of(t)[a as int]) {
        lemma_leads_unique(t, code_table_of(t)[a as int], code_table_of(t)[b as int], 0, a, b);
    }
}

/// A way to a leaf is shorter than the tree has leaves.
pub proof fn lemma_leads_length(t: HuffTree, code: Seq<bool>, k: int, b: u8)
    requires
        leads(t, code, k, b),
    ensures
        code.len() - k < leaf_count(t),
    decreases t,
{
    match t.node {
        Node::Leaf(_) => {},
        Node::Tree(d) => {
            lemma_leads_length(if code[k] { *d.right } else { *d.left }, code, k + 1, b);
            lemma_leaf_count_positive(*d.left);
            lemma_leaf_count_positive(*d.right);
        },
    }
}

/// No code of the code tree of a table of counts is longer than 255 bits.
pub proof fn lemma_code_length(counts: Seq<u64>, b: u8)
    requires
        counts.len() == 256,
        count_sum(counts, 256) > 0,
    ensures
        code_table_of(tree_of_counts(counts))[b as int].len() <= 255,
{
    let tree = tree_of_counts(counts);
    lemma_leaf_forest_weight(counts, 256);
    lemma_forest_leaf_count(counts, 256);
    lemma_reduce_leaf_count(leaf_forest(counts, 256));
    lemma_code_table(tree, b);
    if has_leaf(tree, b) && tree.node is Tree {
        lemma_leads_length(tree, code_table_of(tree)[b as int], 0, b);
    }
}

/// A way through a tree ends at a leaf of the tree.
pub proof fn lemma_leads_to_leaf(t: HuffTree, code: Seq<bool>, k: int, b: u8)
    requires
        leads(t, code, k, b),
    ensures
        has_leaf(t, b),
    decreases t,
{
    match t.node {
        Node::Leaf(_) => {},
        Node::Tree(d) => {
            lemma_leads_to_leaf(if code[k] { *d.right } else { *d.left }, code, k + 1, b);
        },
    }
}

/// A byte value that occurs at least as often as all the others together has
/// a code of one bit, so that no code is shorter than its code.
pub proof fn lemma_dominant_code(counts: Seq<u64>, a: u8, b: u8)
    requires
        counts.len() == 256,
        count_sum(counts, 256) <= u64::MAX,
        counts[a as int] > 0,
        counts[b as int] > 0,
        2 * counts[a as int] >= count_sum(counts, 256),
    ensures
        code_table_of(tree_of_counts(counts))[a as int].len() == 1,
        code_table_of(tree_of_counts(counts))[b as int].len() >= 1,
{
    let tree = tree_of_counts(counts);
    let code = code_table_of(tree)[a as int];
    lemma_count_le_sum(counts, a as int, 256);
    lemma_tree_leaves(counts, a);
    lemma_tree_leaves(counts, b);
    lemma_code_table(tree, a);
    lemma_code_table(tree, b);
    lemma_tree_dominant(counts, a);
    match tree.node {
        Node::Leaf(_) => {},
        Node::Tree(d) => {
            let child = if code[0] { *d.right } else { *d.left };
            assert(leads(child, code, 1, a));
            lemma_leads_to_leaf(child, code, 1, a);
        },
    }
}

/// A copy of `bits`.
fn copy_bits(bits: &Vec<bool>) -> (copy: Vec<bool>)
    ensures
        copy@ == bits@,
{
    let mut copy: Vec<bool> = Vec::new();
    let mut i: usize = 0;
    while i < bits.len()
        invariant
            i <= bits.len(),
            copy@ == bits@.take(i as int),
        decreases bits.len() - i,
    {
        copy.push(bits[i]);
        proof {
            assert(bits@.take(i + 1) =~= bits@.take(i as int).push(bits@[i as int]));
        }
        i += 1;
    }
    proof {
        assert(bits@.take(i as int) =~= bits@);
    }
    copy
}

/// Walks through `tree`, left before right, and binds the byte value of each
/// leaf to the bits on the way to it; `prefix` holds the bits on the way to
/// `tree`. A leaf reached by no bit gets the one-bit code `false`, never the
/// empty code.
pub fn make_encoding_table(tree: &HuffTree, table: &mut Vec<Vec<bool>>, prefix: Vec<bool>)
    requires
        old(table).len() == 256,
    ensures
        final(table).len() == 256,
        code_view(final(table)@) == assign_codes(*tree, prefix@, code_view(old(table)@)),
    decreases *tree,
{
    match &tree.node {
        Node::Tree(tree_data) => {
            let mut left_prefix = copy_bits(&prefix);
            left_prefix.push(false);
            let mut right_prefix = prefix;
            right_prefix.push(true);
            make_encoding_table(&tree_data.left, table, left_prefix);
            make_encoding_table(&tree_data.right, table, right_prefix);
        },
        Node::Leaf(byte) => {
            let mut code = prefix;
            if code.len() == 0 {
                code.push(false);
                assert(code@ =~= seq![false]);
            }
            let ghost before = code_view(table@);
            table.set(*byte as usize, code);
            assert(code_view(table@) =~= before.update(*byte as int, code@));
        },
    }
}

/// The code table of `tree`.
pub fn code_table(tree: &HuffTree) -> (table: Vec<Vec<bool>>)
    ensures
        table.len() == 256,
        code_view(table@) == code_table_of(*tree),
{
    let mut table: Vec<Vec<bool>> = Vec::new();
    let mut v: usize = 0;
    while v < 256
        invariant
            v <= 256,
            table.len() == v,
            forall|i: int| 0 <= i < v ==> (#[trigger] table[i])@.len() == 0,
        decreases 256 - v,
    {
        table.push(Vec::new());
        v += 1;
    }
    assert(code_view(table@) =~~= empty_table());
    make_encoding_table(tree, &mut table, Vec::new());
    table
}

} // verus!
