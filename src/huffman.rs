//! Per-block Huffman coding: frequencies, tree building, code tables, and the
//! packed bitstream of a block.
use vstd::prelude::*;

use crate::huffman_tree_node::{
    is_prefix, leaf_node, lemma_height_bound, lemma_prefix_free, merged, HuffmanTreeNode,
};

verus! {

/// Sum of the first `n` frequencies.
pub open spec fn freq_sum(f: Seq<usize>, n: nat) -> nat
    decreases n,
{
    if n == 0 {
        0
    } else {
        freq_sum(f, (n - 1) as nat) + f[n - 1] as nat
    }
}

/// Sum of the weights of the nodes in a queue.
pub open spec fn weight_sum(q: Seq<HuffmanTreeNode>) -> nat
    decreases q.len(),
{
    if q.len() == 0 {
        0
    } else {
        weight_sum(q.drop_last()) + q.last().weight as nat
    }
}

/// The first position among `q[0..n]` that holds a lightest node; `n >= 1`.
pub open spec fn min_index(q: Seq<HuffmanTreeNode>, n: nat) -> int
    decreases n,
{
    if n <= 1 {
        0
    } else {
        let m = min_index(q, (n - 1) as nat);
        if q[n - 1].weight < q[m].weight {
            n - 1
        } else {
            m
        }
    }
}

/// The tree that repeated merging leaves: take the lightest node out, then the
/// lightest of the rest (each the first in queue order among equals), append
/// their merge to the queue, until one node is left. An empty queue gives a
/// leaf for symbol 0.
pub open spec fn build(q: Seq<HuffmanTreeNode>) -> HuffmanTreeNode
    decreases q.len(),
{
    if q.len() == 0 {
        leaf_node(0, 0)
    } else if q.len() == 1 {
        q[0]
    } else {
        let i = min_index(q, q.len());
        let q1 = q.remove(i);
        let j = min_index(q1, q1.len());
        if 0 <= i < q.len() && 0 <= j < q1.len() {
            build(q1.remove(j).push(merged(q[i], q1[j])))
        } else {
            q[0]
        }
    }
}

/// One leaf per symbol below `n` whose frequency is not zero, in symbol order.
pub open spec fn initial_leaves(f: Seq<usize>, n: nat) -> Seq<HuffmanTreeNode>
    decreases n,
{
    if n == 0 {
        Seq::empty()
    } else {
        let p = initial_leaves(f, (n - 1) as nat);
        if f[n - 1] > 0 {
            p.push(leaf_node(f[n - 1], (n - 1) as usize))
        } else {
            p
        }
    }
}

/// The Huffman tree of a frequency table.
pub open spec fn huffman_tree(f: Seq<usize>) -> HuffmanTreeNode {
    build(initial_leaves(f, f.len()))
}

/// A tree whose codes this library can write: well formed, at most 127 levels
/// deep, with distinct leaf symbols below `n`.
pub open spec fn tree_ok(t: HuffmanTreeNode, n: nat) -> bool {
    &&& t.wf()
    &&& t.height() < 128
    &&& t.leaf_syms().no_duplicates()
    &&& forall|k: int| 0 <= k < t.leaf_syms().len() ==> #[trigger] t.leaf_syms()[k] < n
}

/// Every leaf below `n` weighs its symbol's frequency in `f`.
pub open spec fn leaf_weights_ok(n: HuffmanTreeNode, f: Seq<usize>) -> bool
    decreases n,
{
    &&& (n.left is None && n.right is None && n.symbol is Some) ==> (n.symbol->0 < f.len()
        && n.weight == f[n.symbol->0 as int])
    &&& match n.left {
        Some(l) => leaf_weights_ok(*l, f),
        None => true,
    }
    &&& match n.right {
        Some(r) => leaf_weights_ok(*r, f),
        None => true,
    }
}

/// What holds of the queue between merges.
spec fn queue_ok(q: Seq<HuffmanTreeNode>, n: nat) -> bool {
    &&& forall|k: int|
        0 <= k < q.len() ==> {
            &&& (#[trigger] q[k]).wf()
            &&& q[k].positive()
            &&& q[k].sibling_dominant()
            &&& q[k].leaf_syms().no_duplicates()
            &&& forall|x: int| 0 <= x < q[k].leaf_syms().len() ==> #[trigger] q[k].leaf_syms()[x] < n
        }
    &&& forall|a: int, b: int|
        0 <= a < q.len() && 0 <= b < q.len() ==> (#[trigger] q[b]).kids_at_most((#[trigger] q[a]).weight)
    &&& forall|a: int, b: int|
        0 <= a < q.len() && 0 <= b < q.len() && a != b ==> syms_disjoint(#[trigger] q[a], #[trigger] q[b])
}

spec fn syms_disjoint(a: HuffmanTreeNode, b: HuffmanTreeNode) -> bool {
    forall|x: int, y: int|
        0 <= x < a.leaf_syms().len() && 0 <= y < b.leaf_syms().len() ==> #[trigger] a.leaf_syms()[x]
            != #[trigger] b.leaf_syms()[y]
}

/// Position in a sequence before one element was removed at `i`.
spec fn skip_index(k: int, i: int) -> int {
    if k < i {
        k
    } else {
        k + 1
    }
}

proof fn lemma_remove_index<T>(q: Seq<T>, i: int)
    requires
        0 <= i < q.len(),
    ensures
        q.remove(i).len() == q.len() - 1,
        forall|k: int| 0 <= k < q.len() - 1 ==> #[trigger] q.remove(i)[k] == q[skip_index(k, i)],
{
}

proof fn lemma_min_index(q: Seq<HuffmanTreeNode>, n: nat)
    requires
        1 <= n <= q.len(),
    ensures
        0 <= min_index(q, n) < n,
        forall|k: int| 0 <= k < n ==> q[min_index(q, n)].weight <= #[trigger] q[k].weight,
    decreases n,
{
    if n > 1 {
        lemma_min_index(q, (n - 1) as nat);
    }
}

proof fn lemma_weight_sum_remove(q: Seq<HuffmanTreeNode>, i: int)
    requires
        0 <= i < q.len(),
    ensures
        weight_sum(q.remove(i)) + q[i].weight == weight_sum(q),
    decreases q.len(),
{
    if i < q.len() - 1 {
        let d = q.drop_last();
        lemma_weight_sum_remove(d, i);
        assert(q.remove(i) =~= d.remove(i).push(q.last()));
        assert(q.remove(i).drop_last() =~= d.remove(i));
    } else {
        assert(q.remove(i) =~= q.drop_last());
    }
}

proof fn lemma_weight_sum_push(q: Seq<HuffmanTreeNode>, x: HuffmanTreeNode)
    ensures
        weight_sum(q.push(x)) == weight_sum(q) + x.weight,
{
    assert(q.push(x).drop_last() =~= q);
}

proof fn lemma_initial_leaves(f: Seq<usize>, n: nat)
    requires
        n <= f.len() <= usize::MAX,
    ensures
        weight_sum(initial_leaves(f, n)) == freq_sum(f, n),
        forall|k: int|
            0 <= k < initial_leaves(f, n).len() ==> {
                let x = #[trigger] initial_leaves(f, n)[k];
                &&& x.left is None
                &&& x.right is None
                &&& x.symbol is Some
                &&& x.symbol->0 < n
                &&& x.weight >= 1
            },
        forall|a: int, b: int|
            0 <= a < b < initial_leaves(f, n).len() ==> (#[trigger] initial_leaves(f, n)[a]).symbol->0
                < (#[trigger] initial_leaves(f, n)[b]).symbol->0,
    decreases n,
{
    if n > 0 {
        lemma_initial_leaves(f, (n - 1) as nat);
        let p = initial_leaves(f, (n - 1) as nat);
        if f[n - 1] > 0 {
            let x = leaf_node(f[n - 1], (n - 1) as usize);
            lemma_weight_sum_push(p, x);
            let q = p.push(x);
            assert forall|a: int, b: int| 0 <= a < b < q.len() implies (#[trigger] q[a]).symbol->0
                < (#[trigger] q[b]).symbol->0 by {
                if b == q.len() - 1 {
                    assert(q[a] == p[a]);
                    assert(p[a].symbol->0 < n - 1);
                } else {
                    assert(q[a] == p[a] && q[b] == p[b]);
                }
            }
        }
    }
}

proof fn lemma_initial_queue_ok(f: Seq<usize>)
    requires
        f.len() <= usize::MAX,
    ensures
        queue_ok(initial_leaves(f, f.len()), f.len()),
{
    let q = initial_leaves(f, f.len());
    lemma_initial_leaves(f, f.len());
    assert forall|k: int| 0 <= k < q.len() implies q[k].leaf_syms() =~= seq![q[k].symbol->0] by {}
    assert forall|k: int| 0 <= k < q.len() implies q[k].positive() by {
        assert(q[k].weight >= 1);
    }
    assert forall|a: int, b: int| 0 <= a < q.len() && 0 <= b < q.len() && a != b implies syms_disjoint(
        #[trigger] q[a],
        #[trigger] q[b],
    ) by {
        assert(q[a].leaf_syms() =~= seq![q[a].symbol->0]);
        assert(q[b].leaf_syms() =~= seq![q[b].symbol->0]);
        if a < b {
            assert(q[a].symbol->0 < q[b].symbol->0);
        } else {
            assert(q[b].symbol->0 < q[a].symbol->0);
        }
    }
}

/// One merge keeps the queue's invariant and its total weight.
proof fn lemma_merge_step(q: Seq<HuffmanTreeNode>, n: nat)
    requires
        q.len() > 1,
        queue_ok(q, n),
        weight_sum(q) <= usize::MAX,
    ensures
        ({
            let i = min_index(q, q.len());
            let q1 = q.remove(i);
            let j = min_index(q1, q1.len());
            let q3 = q1.remove(j).push(merged(q[i], q1[j]));
            &&& queue_ok(q3, n)
            &&& weight_sum(q3) == weight_sum(q)
            &&& q[i].weight + q1[j].weight <= usize::MAX
        }),
{
    let i = min_index(q, q.len());
    lemma_min_index(q, q.len());
    let q1 = q.remove(i);
    lemma_remove_index(q, i);
    let j = min_index(q1, q1.len());
    lemma_min_index(q1, q1.len());
    let q2 = q1.remove(j);
    lemma_remove_index(q1, j);
    let a = q[i];
    let b = q1[j];
    let jb = skip_index(j, i);
    assert(b == q[jb]);
    let m = merged(a, b);
    let q3 = q2.push(m);
    lemma_weight_sum_remove(q, i);
    lemma_weight_sum_remove(q1, j);
    lemma_weight_sum_push(q2, m);
    assert(m.leaf_syms() =~= a.leaf_syms() + b.leaf_syms());
    // where each element of q2 sits in q
    assert forall|k: int| 0 <= k < q2.len() implies {
        let o = #[trigger] skip_index(skip_index(k, j), i);
        &&& 0 <= o < q.len()
        &&& o != i
        &&& o != jb
        &&& q2[k] == q[o]
    } by {}
    assert forall|k: int| 0 <= k < q3.len() implies {
        &&& (#[trigger] q3[k]).wf()
        &&& q3[k].positive()
        &&& q3[k].sibling_dominant()
        &&& q3[k].leaf_syms().no_duplicates()
        &&& forall|x: int| 0 <= x < q3[k].leaf_syms().len() ==> #[trigger] q3[k].leaf_syms()[x] < n
    } by {
        if k < q2.len() {
            assert(q3[k] == q[skip_index(skip_index(k, j), i)]);
        } else {
            assert(q3[k] == m);
            assert(q[i].kids_at_most(q[jb].weight));
            assert(q[jb].kids_at_most(q[i].weight));
            assert(syms_disjoint(q[i], q[jb]));
            let s = m.leaf_syms();
            assert forall|x: int, y: int| 0 <= x < s.len() && 0 <= y < s.len() && x != y implies s[x]
                != s[y] by {
                if x < a.leaf_syms().len() && y >= a.leaf_syms().len() {
                    assert(a.leaf_syms()[x] != b.leaf_syms()[y - a.leaf_syms().len()]);
                } else if y < a.leaf_syms().len() && x >= a.leaf_syms().len() {
                    assert(a.leaf_syms()[y] != b.leaf_syms()[x - a.leaf_syms().len()]);
                }
            }
            assert forall|x: int| 0 <= x < s.len() implies #[trigger] s[x] < n by {
                if x < a.leaf_syms().len() {
                    assert(s[x] == a.leaf_syms()[x]);
                } else {
                    assert(s[x] == b.leaf_syms()[x - a.leaf_syms().len()]);
                }
            }
        }
    }
    assert forall|x: int, y: int| 0 <= x < q3.len() && 0 <= y < q3.len() implies (#[trigger] q3[y]).kids_at_most(
        (#[trigger] q3[x]).weight,
    ) by {
        if x < q2.len() {
            let ox = skip_index(skip_index(x, j), i);
            assert(q3[x] == q[ox]);
            if y < q2.len() {
                assert(q3[y] == q[skip_index(skip_index(y, j), i)]);
            } else {
                assert(q1[skip_index(x, j)] == q[ox]);
                assert(q[ox].weight >= b.weight);
                assert(b.weight >= a.weight);
            }
        } else {
            assert(q3[x] == m);
            if y < q2.len() {
                let oy = skip_index(skip_index(y, j), i);
                assert(q3[y] == q[oy]);
                assert(q[oy].kids_at_most(a.weight));
            }
        }
    }
    assert forall|x: int, y: int| 0 <= x < q3.len() && 0 <= y < q3.len() && x != y implies syms_disjoint(
        #[trigger] q3[x],
        #[trigger] q3[y],
    ) by {
        if x < q2.len() && y < q2.len() {
            assert(q3[x] == q[skip_index(skip_index(x, j), i)]);
            assert(q3[y] == q[skip_index(skip_index(y, j), i)]);
        } else if x < q2.len() {
            let ox = skip_index(skip_index(x, j), i);
            assert(q3[x] == q[ox]);
            assert(syms_disjoint(q[ox], a));
            assert(syms_disjoint(q[ox], b));
            assert forall|u: int, v: int| 0 <= u < q[ox].leaf_syms().len() && 0 <= v < m.leaf_syms().len()
                implies #[trigger] q[ox].leaf_syms()[u] != #[trigger] m.leaf_syms()[v] by {
                if v < a.leaf_syms().len() {
                    assert(m.leaf_syms()[v] == a.leaf_syms()[v]);
                } else {
                    assert(m.leaf_syms()[v] == b.leaf_syms()[v - a.leaf_syms().len()]);
                }
            }
        } else {
            let oy = skip_index(skip_index(y, j), i);
            assert(q3[y] == q[oy]);
            assert(syms_disjoint(a, q[oy]));
            assert(syms_disjoint(b, q[oy]));
            assert forall|u: int, v: int| 0 <= u < m.leaf_syms().len() && 0 <= v < q[oy].leaf_syms().len()
                implies #[trigger] m.leaf_syms()[u] != #[trigger] q[oy].leaf_syms()[v] by {
                if u < a.leaf_syms().len() {
                    assert(m.leaf_syms()[u] == a.leaf_syms()[u]);
                } else {
                    assert(m.leaf_syms()[u] == b.leaf_syms()[u - a.leaf_syms().len()]);
                }
            }
        }
    }
}

proof fn lemma_build(q: Seq<HuffmanTreeNode>, n: nat)
    requires
        n >= 1,
        queue_ok(q, n),
        weight_sum(q) <= usize::MAX,
    ensures
        tree_ok(build(q), n),
    decreases q.len(),
{
    if q.len() == 0 {
        assert(leaf_node(0, 0).leaf_syms() =~= seq![0usize]);
    } else if q.len() == 1 {
        assert(q[0].wf());
        lemma_height_bound(q[0]);
    } else {
        lemma_merge_step(q, n);
        let i = min_index(q, q.len());
        lemma_min_index(q, q.len());
        let q1 = q.remove(i);
        let j = min_index(q1, q1.len());
        lemma_min_index(q1, q1.len());
        lemma_build(q1.remove(j).push(merged(q[i], q1[j])), n);
    }
}

proof fn lemma_initial_weights(f: Seq<usize>, n: nat, k: int)
    requires
        n <= f.len() <= usize::MAX,
        0 <= k < initial_leaves(f, n).len(),
    ensures
        leaf_weights_ok(initial_leaves(f, n)[k], f),
    decreases n,
{
    let p = initial_leaves(f, (n - 1) as nat);
    if k < p.len() {
        lemma_initial_weights(f, (n - 1) as nat, k);
    }
}

/// A table that gives no leaf has only zero frequencies.
proof fn lemma_freq_sum_zero(f: Seq<usize>, n: nat)
    requires
        n <= f.len() <= usize::MAX,
        initial_leaves(f, n).len() == 0,
    ensures
        freq_sum(f, n) == 0,
    decreases n,
{
    if n > 0 {
        lemma_initial_leaves_len(f, (n - 1) as nat);
        lemma_freq_sum_zero(f, (n - 1) as nat);
    }
}

proof fn lemma_initial_leaves_len(f: Seq<usize>, n: nat)
    ensures
        initial_leaves(f, n).len() <= initial_leaves(f, n + 1).len(),
{
}

/// Merging keeps the leaves' weights; the last node left weighs the queue's total.
proof fn lemma_build_weights(q: Seq<HuffmanTreeNode>, n: nat, f: Seq<usize>)
    requires
        n >= 1,
        queue_ok(q, n),
        weight_sum(q) <= usize::MAX,
        forall|k: int| 0 <= k < q.len() ==> leaf_weights_ok(#[trigger] q[k], f),
    ensures
        q.len() >= 1 ==> leaf_weights_ok(build(q), f),
        q.len() >= 1 ==> build(q).positive(),
        q.len() >= 1 ==> build(q).weight == weight_sum(q),
    decreases q.len(),
{
    if q.len() == 1 {
        assert(weight_sum(q.drop_last()) == 0);
        assert(q.last() == q[0]);
        assert(weight_sum(q) == q[0].weight);
    } else if q.len() > 1 {
        lemma_merge_step(q, n);
        let i = min_index(q, q.len());
        lemma_min_index(q, q.len());
        let q1 = q.remove(i);
        lemma_remove_index(q, i);
        let j = min_index(q1, q1.len());
        lemma_min_index(q1, q1.len());
        let q2 = q1.remove(j);
        lemma_remove_index(q1, j);
        let m = merged(q[i], q1[j]);
        let q3 = q2.push(m);
        assert(q1[j] == q[skip_index(j, i)]);
        assert(leaf_weights_ok(m, f));
        assert forall|k: int| 0 <= k < q3.len() implies leaf_weights_ok(#[trigger] q3[k], f) by {
            if k < q2.len() {
                assert(q3[k] == q[skip_index(skip_index(k, j), i)]);
            }
        }
        lemma_build_weights(q3, n, f);
    }
}

/// Some node of the queue has a leaf for `s`.
spec fn in_queue(q: Seq<HuffmanTreeNode>, s: usize) -> bool {
    exists|k: int, x: int|
        0 <= k < q.len() && 0 <= x < q[k].leaf_syms().len() && #[trigger] q[k].leaf_syms()[x] == s
}

proof fn lemma_initial_has_all(f: Seq<usize>, n: nat, s: int)
    requires
        n <= f.len() <= usize::MAX,
        0 <= s < n,
        f[s] > 0,
    ensures
        in_queue(initial_leaves(f, n), s as usize),
    decreases n,
{
    let q = initial_leaves(f, n);
    let p = initial_leaves(f, (n - 1) as nat);
    if s < n - 1 {
        lemma_initial_has_all(f, (n - 1) as nat, s);
        let (k, x) = choose|k: int, x: int|
            0 <= k < p.len() && 0 <= x < p[k].leaf_syms().len() && #[trigger] p[k].leaf_syms()[x]
                == s as usize;
        assert(q[k] == p[k]);
        assert(q[k].leaf_syms()[x] == s as usize);
    } else {
        let k = q.len() - 1;
        assert(q[k] == leaf_node(f[s], s as usize));
        assert(q[k].leaf_syms() =~= seq![s as usize]);
        assert(q[k].leaf_syms()[0] == s as usize);
    }
}

/// Merging loses no leaf.
proof fn lemma_build_has_all(q: Seq<HuffmanTreeNode>, n: nat, s: usize)
    requires
        n >= 1,
        queue_ok(q, n),
        weight_sum(q) <= usize::MAX,
        in_queue(q, s),
    ensures
        build(q).leaf_syms().contains(s),
    decreases q.len(),
{
    let (k, x) = choose|k: int, x: int|
        0 <= k < q.len() && 0 <= x < q[k].leaf_syms().len() && #[trigger] q[k].leaf_syms()[x] == s;
    if q.len() == 1 {
        assert(build(q).leaf_syms()[x] == s);
    } else {
        lemma_merge_step(q, n);
        let i = min_index(q, q.len());
        lemma_min_index(q, q.len());
        let q1 = q.remove(i);
        lemma_remove_index(q, i);
        let j = min_index(q1, q1.len());
        lemma_min_index(q1, q1.len());
        let q2 = q1.remove(j);
        lemma_remove_index(q1, j);
        let a = q[i];
        let b = q1[j];
        let jb = skip_index(j, i);
        assert(b == q[jb]);
        let m = merged(a, b);
        let q3 = q2.push(m);
        assert(m.leaf_syms() =~= a.leaf_syms() + b.leaf_syms());
        let ml = q3.len() - 1;
        assert(q3[ml] == m);
        if k == i {
            assert(q3[ml].leaf_syms()[x] == s);
        } else if k == jb {
            assert(q3[ml].leaf_syms()[a.leaf_syms().len() + x] == s);
        } else {
            let k1 = if k < i {
                k
            } else {
                k - 1
            };
            assert(skip_index(k1, i) == k);
            assert(k1 != j);
            let k2 = if k1 < j {
                k1
            } else {
                k1 - 1
            };
            assert(skip_index(k2, j) == k1);
            assert(q3[k2] == q[k]);
            assert(q3[k2].leaf_syms()[x] == s);
        }
        lemma_build_has_all(q3, n, s);
    }
}

/// A leaf's symbol weighs its frequency, and every node weighs at least 1, so
/// every leaf symbol has a frequency above zero.
proof fn lemma_leaf_freqs_positive(t: HuffmanTreeNode, f: Seq<usize>)
    requires
        t.wf(),
        t.positive(),
        leaf_weights_ok(t, f),
    ensures
        forall|x: int|
            0 <= x < t.leaf_syms().len() ==> {
                let s = #[trigger] t.leaf_syms()[x];
                s < f.len() && f[s as int] > 0
            },
    decreases t,
{
    if t.left is Some {
        let l = *t.left->0;
        let r = *t.right->0;
        lemma_leaf_freqs_positive(l, f);
        lemma_leaf_freqs_positive(r, f);
        assert(t.leaf_syms() =~= l.leaf_syms() + r.leaf_syms());
        assert forall|x: int| 0 <= x < t.leaf_syms().len() implies {
            let s = #[trigger] t.leaf_syms()[x];
            s < f.len() && f[s as int] > 0
        } by {
            if x < l.leaf_syms().len() {
                assert(t.leaf_syms()[x] == l.leaf_syms()[x]);
            } else {
                assert(t.leaf_syms()[x] == r.leaf_syms()[x - l.leaf_syms().len()]);
            }
        }
    } else {
        assert(t.leaf_syms() =~= seq![t.symbol->0]);
    }
}

/// The Huffman tree of any non-empty frequency table whose total fits a `usize`
/// is one whose codes can be written.
pub proof fn lemma_huffman_tree_ok(f: Seq<usize>)
    requires
        1 <= f.len() <= usize::MAX,
        freq_sum(f, f.len()) <= usize::MAX,
    ensures
        tree_ok(huffman_tree(f), f.len()),
{
    lemma_initial_leaves(f, f.len());
    lemma_initial_queue_ok(f);
    lemma_build(initial_leaves(f, f.len()), f.len());
}

/// The codes of a built Huffman tree are prefix-free: any two of its leaves
/// carry distinct symbols, and neither leaf's (path, depth) is a prefix of the
/// other's.
pub proof fn lemma_huffman_codes_prefix_free(f: Seq<usize>)
    requires
        1 <= f.len() <= usize::MAX,
        freq_sum(f, f.len()) <= usize::MAX,
    ensures
        forall|i: int, j: int|
            0 <= i < huffman_tree(f).leaf_codes(0, 0).len() && 0 <= j < huffman_tree(f).leaf_codes(
                0,
                0,
            ).len() && i != j ==> {
                let a = #[trigger] huffman_tree(f).leaf_codes(0, 0)[i];
                let b = #[trigger] huffman_tree(f).leaf_codes(0, 0)[j];
                a.0 != b.0 && !is_prefix((a.1, a.2), (b.1, b.2))
            },
{
    lemma_huffman_tree_ok(f);
    assert(0u128 < (1u128 << 0u128)) by (bit_vector);
    lemma_prefix_free(huffman_tree(f), 0, 0);
}

/// The leaves of `t` are exactly the symbols with a non-zero frequency in `f`,
/// each weighing its frequency.
pub open spec fn leaves_are_used_symbols(t: HuffmanTreeNode, f: Seq<usize>) -> bool {
    &&& leaf_weights_ok(t, f)
    &&& forall|s: int| 0 <= s < f.len() && f[s] > 0 ==> t.leaf_syms().contains(s as usize)
    &&& forall|x: int| 0 <= x < t.leaf_syms().len() ==> f[#[trigger] t.leaf_syms()[x] as int] > 0
}

/// Position of the first lightest node in a non-empty queue.
fn find_min(heap: &Vec<HuffmanTreeNode>) -> (r: usize)
    requires
        heap@.len() >= 1,
    ensures
        r == min_index(heap@, heap@.len()),
        r < heap@.len(),
{
    let mut m: usize = 0;
    let mut k: usize = 1;
    while k < heap.len()
        invariant
            1 <= k <= heap@.len(),
            m < k,
            m == min_index(heap@, k as nat),
        decreases heap@.len() - k,
    {
        if heap[k].weight < heap[m].weight {
            m = k;
        }
        k += 1;
    }
    m
}

/// Builds the Huffman tree of the frequency table `arr`: one leaf per symbol
/// with a non-zero frequency, weighted by it; the two lightest nodes are merged
/// until one is left, ties going to the node that entered the queue first.
pub fn get_huffman_tree(arr: &Vec<usize>) -> (r: HuffmanTreeNode)
    requires
        freq_sum(arr@, arr@.len()) <= usize::MAX,
    ensures
        r == huffman_tree(arr@),
        arr@.len() >= 1 ==> tree_ok(r, arr@.len()),
        r.weight == freq_sum(arr@, arr@.len()),
        (exists|s: int| 0 <= s < arr@.len() && arr@[s] > 0) ==> leaves_are_used_symbols(r, arr@),
{
    let mut heap: Vec<HuffmanTreeNode> = Vec::new();
    let mut i: usize = 0;
    while i < arr.len()
        invariant
            i <= arr@.len(),
            heap@ == initial_leaves(arr@, i as nat),
        decreases arr@.len() - i,
    {
        if arr[i] > 0 {
            heap.push(HuffmanTreeNode::new_leaf(arr[i], i));
        }
        i += 1;
    }
    proof {
        lemma_initial_leaves(arr@, arr@.len());
        lemma_initial_queue_ok(arr@);
        if arr@.len() >= 1 {
            lemma_huffman_tree_ok(arr@);
        }
        let q0 = initial_leaves(arr@, arr@.len());
        assert forall|k: int| 0 <= k < q0.len() implies leaf_weights_ok(#[trigger] q0[k], arr@) by {
            lemma_initial_weights(arr@, arr@.len(), k);
        }
        let n = if arr@.len() >= 1 {
            arr@.len()
        } else {
            1
        };
        if q0.len() >= 1 {
            lemma_build_weights(q0, n, arr@);
            lemma_leaf_freqs_positive(huffman_tree(arr@), arr@);
        } else {
            lemma_freq_sum_zero(arr@, arr@.len());
        }
        assert forall|s: int| 0 <= s < arr@.len() && arr@[s] > 0 implies huffman_tree(
            arr@,
        ).leaf_syms().contains(s as usize) by {
            lemma_initial_has_all(arr@, arr@.len(), s);
            lemma_build_has_all(q0, n, s as usize);
        }
        if exists|s: int| 0 <= s < arr@.len() && arr@[s] > 0 {
            let s = choose|s: int| 0 <= s < arr@.len() && arr@[s] > 0;
            lemma_initial_has_all(arr@, arr@.len(), s);
            assert(q0.len() >= 1);
        }
    }
    while heap.len() > 1
        invariant
            build(heap@) == huffman_tree(arr@),
            (exists|s: int| 0 <= s < arr@.len() && arr@[s] > 0) ==> leaves_are_used_symbols(
                huffman_tree(arr@),
                arr@,
            ),
            huffman_tree(arr@).weight == freq_sum(arr@, arr@.len()),
            queue_ok(heap@, arr@.len()),
            weight_sum(heap@) <= usize::MAX,
        decreases heap@.len(),
    {
        proof {
            lemma_merge_step(heap@, arr@.len());
        }
        let i = find_min(&heap);
        let node_1 = heap.remove(i);
        let j = find_min(&heap);
        let node_2 = heap.remove(j);
        let new_node = HuffmanTreeNode::new_internal(node_1, node_2);
        heap.push(new_node);
    }
    if heap.len() == 0 {
        return HuffmanTreeNode::new_leaf(0, 0);
    }
    heap.remove(0)
}

} // verus!
