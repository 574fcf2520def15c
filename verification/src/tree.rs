//! The code tree and the greedy reduction that builds it.

use vstd::prelude::*;
use crate::frequency::{
    byte_frequencies, count_sum, frequencies, lemma_occurrences_bound, lemma_occurrences_positive,
};

verus! {

/// A code tree: a leaf for one byte value, or two subtrees, with the number of
/// input bytes that it stands for.
pub struct HuffTree {
    pub weight: u64,
    pub node: Node,
}

pub enum Node {
    Tree(HuffTreeData),
    Leaf(u8),
}

pub struct HuffTreeData {
    pub left: Box<HuffTree>,
    pub right: Box<HuffTree>,
}

/// The single-leaf tree for byte value `b` with weight `w`.
pub open spec fn leaf(b: u8, w: u64) -> HuffTree {
    HuffTree { weight: w, node: Node::Leaf(b) }
}

/// The tree that joins `a` (left) and `b` (right).
pub open spec fn merged(a: HuffTree, b: HuffTree) -> HuffTree {
    HuffTree {
        weight: (a.weight + b.weight) as u64,
        node: Node::Tree(HuffTreeData { left: Box::new(a), right: Box::new(b) }),
    }
}

/// Whether `b` is the value of some leaf of `t`.
pub open spec fn has_leaf(t: HuffTree, b: u8) -> bool
    decreases t,
{
    match t.node {
        Node::Leaf(x) => x == b,
        Node::Tree(d) => has_leaf(*d.left, b) || has_leaf(*d.right, b),
    }
}

/// The sum of the weights of the trees in `q`.
pub open spec fn total_weight(q: Seq<HuffTree>) -> nat
    decreases q.len(),
{
    if q.len() == 0 {
        0
    } else {
        total_weight(q.drop_last()) + q.last().weight as nat
    }
}

/// The position of the lightest tree in `q`; among equally light trees, the
/// one that stands first.
pub open spec fn min_index(q: Seq<HuffTree>) -> int
    decreases q.len(),
{
    if q.len() <= 1 {
        0
    } else {
        let m = min_index(q.drop_last());
        if q.last().weight < q[m].weight {
            q.len() - 1
        } else {
            m
        }
    }
}

/// One step of the reduction: the two lightest trees leave the queue, the
/// first found as the left child and the second as the right child of a new
/// tree, which joins the queue at its end.
pub open spec fn reduce_step(q: Seq<HuffTree>) -> Seq<HuffTree> {
    let i = min_index(q);
    let rest = q.remove(i);
    let j = min_index(rest);
    rest.remove(j).push(merged(q[i], rest[j]))
}

/// The tree that the reduction makes of the queue `q`.
pub open spec fn reduce(q: Seq<HuffTree>) -> HuffTree
    decreases q.len(),
    via reduce_decreases
{
    if q.len() <= 1 {
        q[0]
    } else {
        reduce(reduce_step(q))
    }
}

#[via_fn]
proof fn reduce_decreases(q: Seq<HuffTree>) {
    if q.len() > 1 {
        lemma_min_index(q);
        lemma_min_index(q.remove(min_index(q)));
    }
}

/// The single-leaf trees of the byte values below `n` that occur, in the
/// order of the byte values.
pub open spec fn leaf_forest(counts: Seq<u64>, n: int) -> Seq<HuffTree>
    decreases n,
{
    if n <= 0 {
        Seq::empty()
    } else if counts[n - 1] > 0 {
        leaf_forest(counts, n - 1).push(leaf((n - 1) as u8, counts[n - 1]))
    } else {
        leaf_forest(counts, n - 1)
    }
}

/// The code tree of a table of counts.
pub open spec fn tree_of_counts(counts: Seq<u64>) -> HuffTree {
    reduce(leaf_forest(counts, 256))
}

/// `min_index` names a tree of the queue that no tree of the queue is lighter
/// than, and that is lighter than every tree before it.
pub proof fn lemma_min_index(q: Seq<HuffTree>)
    requires
        q.len() > 0,
    ensures
        0 <= min_index(q) < q.len(),
        forall|k: int| 0 <= k < q.len() ==> q[min_index(q)].weight <= #[trigger] q[k].weight,
        forall|k: int| 0 <= k < min_index(q) ==> q[min_index(q)].weight < #[trigger] q[k].weight,
    decreases q.len(),
{
    if q.len() > 1 {
        let front = q.drop_last();
        lemma_min_index(front);
        assert forall|k: int| 0 <= k < q.len() implies q[min_index(q)].weight <= #[trigger] q[k].weight by {
            if k < front.len() {
                assert(front[k] == q[k]);
            }
        }
        assert forall|k: int| 0 <= k < min_index(q) implies q[min_index(q)].weight < #[trigger] q[k].weight by {
            if k < front.len() {
                assert(front[k] == q[k]);
            }
        }
    }
}

/// Taking a tree out of a queue takes its weight out of the total.
pub proof fn lemma_total_weight_remove(q: Seq<HuffTree>, i: int)
    requires
        0 <= i < q.len(),
    ensures
        total_weight(q.remove(i)) + q[i].weight == total_weight(q),
    decreases q.len(),
{
    if i == q.len() - 1 {
        assert(q.remove(i) =~= q.drop_last());
    } else {
        lemma_total_weight_remove(q.drop_last(), i);
        assert(q.remove(i).drop_last() =~= q.drop_last().remove(i));
    }
}

/// A reduction step keeps the total weight, as long as it fits.
pub proof fn lemma_total_weight_step(q: Seq<HuffTree>)
    requires
        q.len() > 1,
        total_weight(q) <= u64::MAX,
    ensures
        reduce_step(q).len() == q.len() - 1,
        total_weight(reduce_step(q)) == total_weight(q),
        q[min_index(q)].weight + q.remove(min_index(q))[min_index(q.remove(min_index(q)))].weight
            <= u64::MAX,
{
    let i = min_index(q);
    lemma_min_index(q);
    let rest = q.remove(i);
    let j = min_index(rest);
    lemma_min_index(rest);
    lemma_total_weight_remove(q, i);
    lemma_total_weight_remove(rest, j);
    let m = merged(q[i], rest[j]);
    assert(rest.remove(j).push(m).drop_last() =~= rest.remove(j));
}

/// The leaf forest of a table weighs as much as its counts sum to.
pub proof fn lemma_leaf_forest_weight(counts: Seq<u64>, n: int)
    requires
        0 <= n <= counts.len(),
    ensures
        total_weight(leaf_forest(counts, n)) == count_sum(counts, n),
        leaf_forest(counts, n).len() <= n,
    decreases n,
{
    if n > 0 {
        lemma_leaf_forest_weight(counts, n - 1);
        if counts[n - 1] > 0 {
            let f = leaf_forest(counts, n - 1);
            assert(f.push(leaf((n - 1) as u8, counts[n - 1])).drop_last() =~= f);
        }
    }
}

/// The position of the lightest tree of `queue`.
fn lightest(queue: &Vec<HuffTree>) -> (best: usize)
    requires
        queue.len() > 0,
    ensures
        best == min_index(queue@),
{
    let mut best: usize = 0;
    let mut k: usize = 1;
    assert(queue@.take(1).len() == 1);
    while k < queue.len()
        invariant
            1 <= k <= queue.len(),
            best == min_index(queue@.take(k as int)),
            best < k,
        decreases queue.len() - k,
    {
        proof {
            assert(queue@.take(k + 1).drop_last() =~= queue@.take(k as int));
        }
        if queue[k].weight < queue[best].weight {
            best = k;
        }
        k += 1;
    }
    proof {
        assert(queue@.take(k as int) =~= queue@);
    }
    best
}

/// Makes one single-leaf tree for each byte value that occurs, in the order of
/// the byte values. That order is what ties between equal weights are broken by.
pub fn freq_to_tree(byte_counts: Vec<u64>) -> (trees: Vec<HuffTree>)
    requires
        byte_counts.len() == 256,
    ensures
        trees@ == leaf_forest(byte_counts@, 256),
{
    let mut trees: Vec<HuffTree> = Vec::new();
    let mut v: usize = 0;
    while v < 256
        invariant
            v <= 256,
            byte_counts.len() == 256,
            trees@ == leaf_forest(byte_counts@, v as int),
        decreases 256 - v,
    {
        let count: u64 = byte_counts[v];
        if count > 0 {
            trees.push(HuffTree { weight: count, node: Node::Leaf(v as u8) });
        }
        v += 1;
    }
    trees
}

/// Reduces a queue of trees to one tree: as long as more than one is left,
/// the two lightest are joined, the first found on the left.
pub fn huff_reduce(trees: Vec<HuffTree>) -> (tree: HuffTree)
    requires
        trees.len() > 0,
        total_weight(trees@) <= u64::MAX,
    ensures
        tree == reduce(trees@),
{
    let mut queue = trees;
    while queue.len() > 1
        invariant
            queue.len() > 0,
            total_weight(queue@) <= u64::MAX,
            reduce(queue@) == reduce(trees@),
        decreases queue.len(),
    {
        proof {
            lemma_min_index(queue@);
            lemma_min_index(queue@.remove(min_index(queue@)));
            lemma_total_weight_step(queue@);
        }
        let i = lightest(&queue);
        let a = queue.remove(i);
        let j = lightest(&queue);
        let b = queue.remove(j);
        queue.push(
            HuffTree {
                weight: a.weight + b.weight,
                node: Node::Tree(HuffTreeData { left: Box::new(a), right: Box::new(b) }),
            },
        );
    }
    queue.remove(0)
}

/// Builds the code tree of `bytes`; there is none for an empty input.
pub fn make_tree(bytes: &[u8]) -> (tree: Option<HuffTree>)
    ensures
        tree == if bytes@.len() == 0 {
            None
        } else {
            Some(tree_of_counts(frequencies(bytes@)))
        },
{
    if bytes.len() == 0 {
        return None;
    }
    let byte_counts = byte_frequencies(bytes);
    proof {
        lemma_occurrences_positive(bytes@, 0);
        lemma_occurrences_bound(bytes@, bytes@[0]);
        lemma_leaf_forest_weight(byte_counts@, 256);
        lemma_forest_has_leaf(byte_counts@, 256, bytes@[0]);
    }
    let trees = freq_to_tree(byte_counts);
    Some(huff_reduce(trees))
}

/// A byte value below `n` that occurs has its leaf in the leaf forest.
pub proof fn lemma_forest_has_leaf(counts: Seq<u64>, n: int, b: u8)
    requires
        0 <= n <= counts.len(),
        b < n,
        counts[b as int] > 0,
    ensures
        exists|k: int| 0 <= k < leaf_forest(counts, n).len() && has_leaf(#[trigger] leaf_forest(counts, n)[k], b),
    decreases n,
{
    let f = leaf_forest(counts, n);
    if b == n - 1 {
        assert(has_leaf(f[f.len() - 1], b));
    } else {
        lemma_forest_has_leaf(counts, n - 1, b);
        let k = choose|k: int| 0 <= k < leaf_forest(counts, n - 1).len() && has_leaf(#[trigger] leaf_forest(counts, n - 1)[k], b);
        assert(has_leaf(f[k], b));
    }
}

/// The reduction loses no leaf.
pub proof fn lemma_reduce_keeps_leaf(q: Seq<HuffTree>, k: int, b: u8)
    requires
        0 <= k < q.len(),
        has_leaf(q[k], b),
    ensures
        has_leaf(reduce(q), b),
    decreases q.len(),
{
    if q.len() > 1 {
        let i = min_index(q);
        lemma_min_index(q);
        let rest = q.remove(i);
        let j = min_index(rest);
        lemma_min_index(rest);
        let m = merged(q[i], rest[j]);
        let next = reduce_step(q);
        assert(next[next.len() - 1] == m);
        if k == i {
            lemma_reduce_keeps_leaf(next, next.len() - 1, b);
        } else {
            let k1 = if k < i { k } else { k - 1 };
            assert(rest[k1] == q[k]);
            if k1 == j {
                lemma_reduce_keeps_leaf(next, next.len() - 1, b);
            } else {
                let k2 = if k1 < j { k1 } else { k1 - 1 };
                assert(next[k2] == q[k]);
                lemma_reduce_keeps_leaf(next, k2, b);
            }
        }
    }
}

/// Every leaf of the reduced tree is a leaf of some tree of the queue.
pub proof fn lemma_reduce_adds_no_leaf(q: Seq<HuffTree>, b: u8)
    requires
        q.len() > 0,
        has_leaf(reduce(q), b),
    ensures
        exists|k: int| 0 <= k < q.len() && has_leaf(#[trigger] q[k], b),
    decreases q.len(),
{
    if q.len() == 1 {
        assert(has_leaf(q[0], b));
    } else {
        let i = min_index(q);
        lemma_min_index(q);
        let rest = q.remove(i);
        let j = min_index(rest);
        lemma_min_index(rest);
        let next = reduce_step(q);
        lemma_reduce_adds_no_leaf(next, b);
        let k = choose|k: int| 0 <= k < next.len() && has_leaf(#[trigger] next[k], b);
        let from_rest = if k == next.len() - 1 {
            if has_leaf(q[i], b) {
                -1
            } else {
                j
            }
        } else if k < j {
            k
        } else {
            k + 1
        };
        if from_rest < 0 {
            assert(has_leaf(q[i], b));
        } else {
            assert(has_leaf(rest[from_rest], b));
            let from_q = if from_rest < i {
                from_rest
            } else {
                from_rest + 1
            };
            assert(q[from_q] == rest[from_rest]);
            assert(has_leaf(q[from_q], b));
        }
    }
}

/// A leaf forest holds leaves only for byte values that occur.
pub proof fn lemma_forest_leaf_occurs(counts: Seq<u64>, n: int, k: int, b: u8)
    requires
        0 <= n <= counts.len(),
        n <= 256,
        0 <= k < leaf_forest(counts, n).len(),
        has_leaf(leaf_forest(counts, n)[k], b),
    ensures
        b < n,
        counts[b as int] > 0,
    decreases n,
{
    let front = leaf_forest(counts, n - 1);
    if k < front.len() {
        lemma_forest_grows(counts, n);
        assert(leaf_forest(counts, n)[k] == front[k]);
        lemma_forest_leaf_occurs(counts, n - 1, k, b);
    }
}

/// A leaf forest only grows as more byte values are taken in.
pub proof fn lemma_forest_grows(counts: Seq<u64>, n: int)
    requires
        0 < n,
    ensures
        leaf_forest(counts, n - 1).len() <= leaf_forest(counts, n).len() <= leaf_forest(
            counts,
            n - 1,
        ).len() + 1,
        forall|k: int|
            0 <= k < leaf_forest(counts, n - 1).len() ==> leaf_forest(counts, n)[k] == leaf_forest(
                counts,
                n - 1,
            )[k],
{
}

/// The leaves of the code tree of a table of counts are exactly the byte
/// values whose count is not zero, if there is any such value.
pub proof fn lemma_tree_leaves(counts: Seq<u64>, b: u8)
    requires
        counts.len() == 256,
        count_sum(counts, 256) > 0,
    ensures
        has_leaf(tree_of_counts(counts), b) <==> counts[b as int] > 0,
{
    let forest = leaf_forest(counts, 256);
    lemma_leaf_forest_weight(counts, 256);
    if counts[b as int] > 0 {
        lemma_forest_has_leaf(counts, 256, b);
        let k = choose|k: int| 0 <= k < forest.len() && has_leaf(#[trigger] forest[k], b);
        lemma_reduce_keeps_leaf(forest, k, b);
    }
    if has_leaf(tree_of_counts(counts), b) {
        lemma_reduce_adds_no_leaf(forest, b);
        let k = choose|k: int| 0 <= k < forest.len() && has_leaf(#[trigger] forest[k], b);
        lemma_forest_leaf_occurs(counts, 256, k, b);
    }
}

/// The reduced tree weighs as much as the whole queue, as long as that fits.
pub proof fn lemma_reduce_weight(q: Seq<HuffTree>)
    requires
        q.len() > 0,
        total_weight(q) <= u64::MAX,
    ensures
        reduce(q).weight == total_weight(q),
    decreases q.len(),
{
    if q.len() == 1 {
        assert(total_weight(q.drop_last()) == 0);
    } else {
        lemma_total_weight_step(q);
        lemma_reduce_weight(reduce_step(q));
    }
}

/// The code tree of a table of counts weighs as much as the counts sum to.
pub proof fn lemma_tree_weight(counts: Seq<u64>)
    requires
        counts.len() == 256,
        0 < count_sum(counts, 256) <= u64::MAX,
    ensures
        tree_of_counts(counts).weight == count_sum(counts, 256),
{
    lemma_leaf_forest_weight(counts, 256);
    lemma_reduce_weight(leaf_forest(counts, 256));
}

/// Where only the byte value `b` occurs, the leaf forest is its leaf alone.
pub proof fn lemma_forest_single(counts: Seq<u64>, b: u8, n: int)
    requires
        0 <= n <= counts.len(),
        counts[b as int] > 0,
        forall|v: int| 0 <= v < counts.len() && v != b ==> counts[v] == 0,
    ensures
        leaf_forest(counts, n) == if b < n {
            seq![leaf(b, counts[b as int])]
        } else {
            Seq::<HuffTree>::empty()
        },
    decreases n,
{
    if n > 0 {
        lemma_forest_single(counts, b, n - 1);
        if b == n - 1 {
            assert(Seq::<HuffTree>::empty().push(leaf(b, counts[b as int])) =~= seq![
                leaf(b, counts[b as int]),
            ]);
        }
    }
}

/// The number of leaves of `t`.
pub open spec fn leaf_count(t: HuffTree) -> nat
    decreases t,
{
    match t.node {
        Node::Leaf(_) => 1,
        Node::Tree(d) => leaf_count(*d.left) + leaf_count(*d.right),
    }
}

/// The number of leaves of all the trees in `q`.
pub open spec fn forest_leaf_count(q: Seq<HuffTree>) -> nat
    decreases q.len(),
{
    if q.len() == 0 {
        0
    } else {
        forest_leaf_count(q.drop_last()) + leaf_count(q.last())
    }
}

/// A tree has at least one leaf.
pub proof fn lemma_leaf_count_positive(t: HuffTree)
    ensures
        leaf_count(t) >= 1,
    decreases t,
{
    match t.node {
        Node::Leaf(_) => {},
        Node::Tree(d) => {
            lemma_leaf_count_positive(*d.left);
        },
    }
}

/// Taking a tree out of a queue takes its leaves out of the count.
pub proof fn lemma_leaf_count_remove(q: Seq<HuffTree>, i: int)
    requires
        0 <= i < q.len(),
    ensures
        forest_leaf_count(q.remove(i)) + leaf_count(q[i]) == forest_leaf_count(q),
    decreases q.len(),
{
    if i == q.len() - 1 {
        assert(q.remove(i) =~= q.drop_last());
    } else {
        lemma_leaf_count_remove(q.drop_last(), i);
        assert(q.remove(i).drop_last() =~= q.drop_last().remove(i));
    }
}

/// The reduced tree has as many leaves as the whole queue.
pub proof fn lemma_reduce_leaf_count(q: Seq<HuffTree>)
    requires
        q.len() > 0,
    ensures
        leaf_count(reduce(q)) == forest_leaf_count(q),
    decreases q.len(),
{
    if q.len() == 1 {
        assert(forest_leaf_count(q.drop_last()) == 0);
    } else {
        let i = min_index(q);
        lemma_min_index(q);
        let rest = q.remove(i);
        let j = min_index(rest);
        lemma_min_index(rest);
        lemma_leaf_count_remove(q, i);
        lemma_leaf_count_remove(rest, j);
        let next = reduce_step(q);
        assert(next.drop_last() =~= rest.remove(j));
        lemma_reduce_leaf_count(next);
    }
}

/// A leaf forest has one leaf for each of its trees, and no more trees than
/// byte values were taken in.
pub proof fn lemma_forest_leaf_count(counts: Seq<u64>, n: int)
    requires
        0 <= n,
    ensures
        forest_leaf_count(leaf_forest(counts, n)) == leaf_forest(counts, n).len() <= n,
    decreases n,
{
    if n > 0 {
        lemma_forest_leaf_count(counts, n - 1);
        if counts[n - 1] > 0 {
            let f = leaf_forest(counts, n - 1);
            assert(f.push(leaf((n - 1) as u8, counts[n - 1])).drop_last() =~= f);
        }
    }
}

/// Whether the leaf for `a` is a child of the root of `t`, and the other
/// child holds no leaf for `a`.
pub open spec fn hangs_at_root(t: HuffTree, a: u8) -> bool {
    match t.node {
        Node::Leaf(_) => false,
        Node::Tree(d) => (d.left.node == Node::Leaf(a) && !has_leaf(*d.right, a)) || (d.right.node
            == Node::Leaf(a) && !has_leaf(*d.left, a)),
    }
}

/// Whether the tree at position `p` of `q` is the only one with a leaf for
/// `a`, is that leaf, and weighs at least as much as all the others together,
/// none of which weighs nothing.
pub open spec fn dominates(q: Seq<HuffTree>, p: int, a: u8) -> bool {
    &&& 0 <= p < q.len()
    &&& q[p].node == Node::Leaf(a)
    &&& forall|k: int| 0 <= k < q.len() && k != p ==> !has_leaf(#[trigger] q[k], a)
    &&& forall|k: int| 0 <= k < q.len() ==> (#[trigger] q[k]).weight > 0
    &&& total_weight(q) <= u64::MAX
    &&& 2 * q[p].weight >= total_weight(q)
}

/// A queue weighs at least as much as any two of its trees together.
pub proof fn lemma_total_weight_two(q: Seq<HuffTree>, k1: int, k2: int)
    requires
        0 <= k1 < k2 < q.len(),
    ensures
        total_weight(q) >= q[k1].weight + q[k2].weight,
{
    lemma_total_weight_remove(q, k2);
    lemma_total_weight_remove(q.remove(k2), k1);
}

/// A dominating leaf is not among the two lightest of three or more trees.
pub proof fn lemma_dominant_stays(q: Seq<HuffTree>, p: int, a: u8)
    requires
        q.len() >= 3,
        dominates(q, p, a),
    ensures
        min_index(q) != p,
        min_index(q.remove(min_index(q))) != if p < min_index(q) {
            p
        } else {
            p - 1
        },
{
    let i = min_index(q);
    lemma_min_index(q);
    let rest = q.remove(i);
    let j = min_index(rest);
    lemma_min_index(rest);
    lemma_total_weight_remove(q, i);
    if i == p {
        lemma_total_weight_two(rest, 0, 1);
        assert(rest[0] == q[if i > 0 { 0int } else { 1int }]);
        assert(rest[1] == q[if i > 1 { 1int } else { 2int }]);
    } else {
        let p1 = if p < i { p } else { p - 1 };
        assert(rest[p1] == q[p]);
        if j == p1 {
            let o = if p1 == 0 { 1int } else { 0int };
            if o < p1 {
                lemma_total_weight_two(rest, o, p1);
            } else {
                lemma_total_weight_two(rest, p1, o);
            }
        }
    }
}

/// Where one leaf weighs at least as much as all the other trees together, it
/// ends up as a child of the root.
pub proof fn lemma_reduce_dominant(q: Seq<HuffTree>, p: int, a: u8)
    requires
        q.len() >= 2,
        dominates(q, p, a),
    ensures
        hangs_at_root(reduce(q), a),
    decreases q.len(),
{
    let i = min_index(q);
    lemma_min_index(q);
    let rest = q.remove(i);
    let j = min_index(rest);
    lemma_min_index(rest);
    let joined = merged(q[i], rest[j]);
    let next = reduce_step(q);
    lemma_total_weight_step(q);
    assert(next[next.len() - 1] == joined);
    if q.len() == 2 {
        assert(rest[0] == q[1 - i]);
        assert(reduce(next) == next[0]);
    } else {
        lemma_dominant_stays(q, p, a);
        let p1 = if p < i { p } else { p - 1 };
        let p2 = if p1 < j { p1 } else { p1 - 1 };
        assert(next[p2] == q[p]);
        assert(rest[j] == q[if j < i { j } else { j + 1 }]);
        assert forall|k: int| 0 <= k < next.len() implies (#[trigger] next[k]).weight > 0 && (k
            != p2 ==> !has_leaf(next[k], a)) by {
            if k < next.len() - 1 {
                let k1 = if k < j { k } else { k + 1 };
                let k0 = if k1 < i { k1 } else { k1 + 1 };
                assert(next[k] == rest[k1]);
                assert(rest[k1] == q[k0]);
            }
        }
        lemma_reduce_dominant(next, p2, a);
    }
}

/// The value of a tree that is a leaf.
pub open spec fn leaf_value(t: HuffTree) -> int {
    match t.node {
        Node::Leaf(b) => b as int,
        Node::Tree(_) => -1,
    }
}

/// A leaf forest holds the leaves of the byte values that occur, each with
/// its count for its weight, in the order of the values.
pub proof fn lemma_forest_sorted(counts: Seq<u64>, n: int)
    requires
        0 <= n <= counts.len(),
        n <= 256,
    ensures
        forall|k: int|
            0 <= k < leaf_forest(counts, n).len() ==> {
                let t = #[trigger] leaf_forest(counts, n)[k];
                &&& t.node is Leaf
                &&& 0 <= leaf_value(t) < n
                &&& t.weight == counts[leaf_value(t)]
                &&& t.weight > 0
            },
        forall|k1: int, k2: int|
            0 <= k1 < k2 < leaf_forest(counts, n).len() ==> leaf_value(
                #[trigger] leaf_forest(counts, n)[k1],
            ) < leaf_value(#[trigger] leaf_forest(counts, n)[k2]),
    decreases n,
{
    if n > 0 {
        lemma_forest_sorted(counts, n - 1);
        lemma_forest_grows(counts, n);
    }
}

/// A byte value that occurs at least as often as all the others together has
/// its leaf at the root of the code tree or as a child of the root.
pub proof fn lemma_tree_dominant(counts: Seq<u64>, a: u8)
    requires
        counts.len() == 256,
        count_sum(counts, 256) <= u64::MAX,
        counts[a as int] > 0,
        2 * counts[a as int] >= count_sum(counts, 256),
    ensures
        tree_of_counts(counts).node == Node::Leaf(a) || hangs_at_root(tree_of_counts(counts), a),
{
    let forest = leaf_forest(counts, 256);
    lemma_forest_has_leaf(counts, 256, a);
    let p = choose|k: int| 0 <= k < forest.len() && has_leaf(#[trigger] forest[k], a);
    lemma_forest_sorted(counts, 256);
    lemma_leaf_forest_weight(counts, 256);
    assert(forest[p].node == Node::Leaf(a));
    if forest.len() >= 2 {
        assert forall|k: int| 0 <= k < forest.len() && k != p implies !has_leaf(
            #[trigger] forest[k],
            a,
        ) by {
            if k < p {
                assert(leaf_value(forest[k]) < leaf_value(forest[p]));
            } else {
                assert(leaf_value(forest[p]) < leaf_value(forest[k]));
            }
        }
        lemma_reduce_dominant(forest, p, a);
    }
}

} // verus!
