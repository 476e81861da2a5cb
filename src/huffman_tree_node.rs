//! Nodes of a Huffman tree, and what a tree's shape says about its codes.
use vstd::prelude::*;

verus! {

/// A leaf carries a symbol and its weight; an internal node owns two children
/// and carries the sum of their weights.
#[derive(Debug)]
pub struct HuffmanTreeNode {
    pub weight: usize,
    pub left: Option<Box<HuffmanTreeNode>>,
    pub right: Option<Box<HuffmanTreeNode>>,
    pub symbol: Option<usize>,
}

/// The `n` low bits of `x`.
pub open spec fn low_bits(x: u128, n: u128) -> u128 {
    x & (((1u128 << n) - 1) as u128)
}

/// Code `a` (pattern, length) is a prefix of code `b`: `b`'s first `a.1`
/// decisions, taken from the low bit up, are those of `a`.
pub open spec fn is_prefix(a: (u128, nat), b: (u128, nat)) -> bool {
    a.1 <= b.1 && low_bits(b.0, a.1 as u128) == a.0
}

/// A leaf of weight `weight` for `symbol`.
pub open spec fn leaf_node(weight: usize, symbol: usize) -> HuffmanTreeNode {
    HuffmanTreeNode { weight, left: None, right: None, symbol: Some(symbol) }
}

/// The internal node over `a` (left) and `b` (right).
pub open spec fn merged(a: HuffmanTreeNode, b: HuffmanTreeNode) -> HuffmanTreeNode {
    HuffmanTreeNode {
        weight: (a.weight + b.weight) as usize,
        left: Some(Box::new(a)),
        right: Some(Box::new(b)),
        symbol: None,
    }
}

impl HuffmanTreeNode {
    pub open spec fn spec_is_leaf(self) -> bool {
        self.left is None && self.right is None
    }

    /// Leaves carry a symbol; internal nodes have two children, no symbol, and
    /// the sum of the children's weights.
    pub open spec fn wf(self) -> bool
        decreases self,
    {
        if self.left is None && self.right is None {
            self.symbol is Some
        } else if self.left is Some && self.right is Some {
            &&& self.symbol is None
            &&& self.weight == self.left->0.weight + self.right->0.weight
            &&& self.left->0.wf()
            &&& self.right->0.wf()
        } else {
            false
        }
    }

    /// Length of the longest path from this node down to a leaf.
    pub open spec fn height(self) -> nat
        decreases self,
    {
        let hl = match self.left {
            Some(l) => l.height() + 1,
            None => 0,
        };
        let hr = match self.right {
            Some(r) => r.height() + 1,
            None => 0,
        };
        if hl > hr {
            hl
        } else {
            hr
        }
    }

    /// The leaves' symbols, from left to right.
    pub open spec fn leaf_syms(self) -> Seq<usize>
        decreases self,
    {
        let own = if self.left is None && self.right is None && self.symbol is Some {
            seq![self.symbol->0]
        } else {
            Seq::empty()
        };
        let l = match self.left {
            Some(l) => l.leaf_syms(),
            None => Seq::empty(),
        };
        let r = match self.right {
            Some(r) => r.leaf_syms(),
            None => Seq::empty(),
        };
        own + l + r
    }

    /// The leaves from left to right, each as (symbol, path, depth), for this
    /// node at `depth` below the root reached by `path`: a step to the left
    /// leaves bit `depth` of the path clear, a step to the right sets it.
    pub open spec fn leaf_codes(self, path: u128, depth: nat) -> Seq<(usize, u128, nat)>
        decreases self,
    {
        let own = if self.left is None && self.right is None && self.symbol is Some {
            seq![(self.symbol->0, path, depth)]
        } else {
            Seq::empty()
        };
        let l = match self.left {
            Some(l) => l.leaf_codes(path, depth + 1),
            None => Seq::empty(),
        };
        let r = match self.right {
            Some(r) => r.leaf_codes(path | (1u128 << (depth as u128)), depth + 1),
            None => Seq::empty(),
        };
        own + l + r
    }

    /// Every node weighs at least 1.
    pub open spec fn positive(self) -> bool
        decreases self,
    {
        &&& self.weight >= 1
        &&& match self.left {
            Some(l) => l.positive(),
            None => true,
        }
        &&& match self.right {
            Some(r) => r.positive(),
            None => true,
        }
    }

    /// The children of this node weigh at most `w`.
    pub open spec fn kids_at_most(self, w: usize) -> bool {
        &&& match self.left {
            Some(l) => l.weight <= w,
            None => true,
        }
        &&& match self.right {
            Some(r) => r.weight <= w,
            None => true,
        }
    }

    /// At every internal node, each child weighs at least as much as each
    /// child of its sibling: what merging the two lightest nodes leaves.
    pub open spec fn sibling_dominant(self) -> bool
        decreases self,
    {
        match (self.left, self.right) {
            (Some(l), Some(r)) => {
                &&& l.sibling_dominant()
                &&& r.sibling_dominant()
                &&& l.kids_at_most(r.weight)
                &&& r.kids_at_most(l.weight)
            },
            _ => true,
        }
    }

    pub fn new_leaf(weight: usize, symbol: usize) -> (r: Self)
        ensures
            r == leaf_node(weight, symbol),
    {
        Self { weight, left: None, right: None, symbol: Some(symbol) }
    }

    pub fn new_internal(left: HuffmanTreeNode, right: HuffmanTreeNode) -> (r: Self)
        requires
            left.weight + right.weight <= usize::MAX,
        ensures
            r == merged(left, right),
            r.weight == left.weight + right.weight,
    {
        Self {
            weight: left.weight + right.weight,
            left: Some(Box::new(left)),
            right: Some(Box::new(right)),
            symbol: None,
        }
    }

    pub fn is_leaf(&self) -> (r: bool)
        ensures
            r == self.spec_is_leaf(),
    {
        self.left.is_none() && self.right.is_none()
    }
}

/// Fibonacci numbers: 0, 1, 1, 2, 3, 5, ...
pub open spec fn fib(n: nat) -> nat
    decreases n,
{
    if n == 0 {
        0
    } else if n == 1 {
        1
    } else {
        fib((n - 1) as nat) + fib((n - 2) as nat)
    }
}

proof fn lemma_fib_monotone(a: nat, b: nat)
    requires
        a <= b,
    ensures
        fib(a) <= fib(b),
    decreases b - a,
{
    if a < b {
        lemma_fib_monotone(a, (b - 1) as nat);
        if b >= 2 {
            assert(fib(b) == fib((b - 1) as nat) + fib((b - 2) as nat));
        }
    }
}

/// `fib(2k + 2) >= 2^k`.
proof fn lemma_fib_exp(k: nat)
    ensures
        fib(2 * k + 2) >= vstd::arithmetic::power2::pow2(k),
    decreases k,
{
    vstd::arithmetic::power2::lemma2_to64();
    if k == 0 {
        assert(fib(2) == 1) by {
            reveal_with_fuel(fib, 3);
        }
    } else {
        lemma_fib_exp((k - 1) as nat);
        lemma_fib_monotone(2 * k, 2 * k + 1);
        assert(fib(2 * k + 2) == fib(2 * k + 1) + fib(2 * k as nat));
        vstd::arithmetic::power2::lemma_pow2_unfold(k);
    }
}

/// No weight held in a `usize` reaches `fib(130)`.
proof fn lemma_fib_exceeds_usize()
    ensures
        fib(130) > usize::MAX,
{
    lemma_fib_exp(64);
    vstd::arithmetic::power2::lemma2_to64_rest();
}

/// A positive, sibling-dominant tree of height `h` weighs at least `fib(h + 2)`.
proof fn lemma_weight_fib(n: HuffmanTreeNode)
    requires
        n.wf(),
        n.positive(),
        n.sibling_dominant(),
    ensures
        n.weight >= fib(n.height() + 2),
        n.left is Some ==> n.left->0.weight >= fib(n.left->0.height() + 2),
        n.right is Some ==> n.right->0.weight >= fib(n.right->0.height() + 2),
    decreases n,
{
    reveal_with_fuel(fib, 3);
    if n.left is Some {
        let l = *n.left->0;
        let r = *n.right->0;
        lemma_weight_fib(l);
        lemma_weight_fib(r);
        if l.height() >= r.height() {
            lemma_weight_step(l, r.weight);
        } else {
            lemma_weight_step(r, l.weight);
        }
    }
}

/// One step of the Fibonacci bound: a tall child of height `h - 1 >= 1` whose
/// children weigh at most its sibling's weight `other`.
proof fn lemma_weight_step(tall: HuffmanTreeNode, other: usize)
    requires
        tall.wf(),
        tall.weight >= fib(tall.height() + 2),
        tall.left is Some ==> tall.left->0.weight >= fib(tall.left->0.height() + 2),
        tall.right is Some ==> tall.right->0.weight >= fib(tall.right->0.height() + 2),
        tall.kids_at_most(other),
        other >= 1,
    ensures
        tall.weight + other >= fib(tall.height() + 3),
{
    reveal_with_fuel(fib, 3);
    let h = tall.height() + 1;
    if h >= 2 {
        let cl = *tall.left->0;
        let cr = *tall.right->0;
        let c = if cl.height() + 1 == tall.height() {
            cl
        } else {
            cr
        };
        assert(c.height() == h - 2);
        assert(fib(h + 2) == fib(h + 1) + fib(h as nat));
    }
}

/// Height bound of a positive, sibling-dominant tree: its codes fit in 127 bits.
pub proof fn lemma_height_bound(n: HuffmanTreeNode)
    requires
        n.wf(),
        n.positive(),
        n.sibling_dominant(),
    ensures
        n.height() < 128,
{
    lemma_weight_fib(n);
    lemma_fib_exceeds_usize();
    if n.height() >= 128 {
        lemma_fib_monotone(130, n.height() + 2);
    }
}

proof fn lemma_low_bits_of_low(x: u128, d: u128, la: u128)
    requires
        d <= la < 128,
    ensures
        low_bits(low_bits(x, la), d) == low_bits(x, d),
{
    assert((x & (((1u128 << la) - 1) as u128)) & (((1u128 << d) - 1) as u128) == x & (((1u128
        << d) - 1) as u128)) by (bit_vector)
        requires
            d <= la < 128,
    ;
}

proof fn lemma_low_self(p: u128, d: u128)
    requires
        d < 128,
        p < (1u128 << d),
    ensures
        low_bits(p, d) == p,
{
    assert(p & (((1u128 << d) - 1) as u128) == p) by (bit_vector)
        requires
            d < 128,
            p < (1u128 << d),
    ;
}

pub proof fn lemma_child_paths(p: u128, d: u128)
    requires
        d < 127,
        p < (1u128 << d),
    ensures
        low_bits(p, d) == p,
        p < (1u128 << ((d + 1) as u128)),
        low_bits(p, (d + 1) as u128) == p,
        p | (1u128 << d) < (1u128 << (d + 1)),
        low_bits(p | (1u128 << d), d) == p,
        low_bits(p | (1u128 << d), (d + 1) as u128) == p | (1u128 << d),
        p != p | (1u128 << d),
{
    assert(p & (((1u128 << d) - 1) as u128) == p) by (bit_vector)
        requires
            d < 127,
            p < (1u128 << d),
    ;
    assert(p & (((1u128 << (d + 1)) - 1) as u128) == p) by (bit_vector)
        requires
            d < 127,
            p < (1u128 << d),
    ;
    assert(p < (1u128 << ((d + 1) as u128))) by (bit_vector)
        requires
            d < 127,
            p < (1u128 << d),
    ;
    assert(p | (1u128 << d) < (1u128 << (d + 1))) by (bit_vector)
        requires
            d < 127,
            p < (1u128 << d),
    ;
    assert((p | (1u128 << d)) & (((1u128 << d) - 1) as u128) == p) by (bit_vector)
        requires
            d < 127,
            p < (1u128 << d),
    ;
    assert((p | (1u128 << d)) & (((1u128 << (d + 1)) - 1) as u128) == p | (1u128 << d))
        by (bit_vector)
        requires
            d < 127,
            p < (1u128 << d),
    ;
    assert(p != p | (1u128 << d)) by (bit_vector)
        requires
            d < 127,
            p < (1u128 << d),
    ;
}

/// The leaf codes list the leaves' symbols in order, wherever the node stands.
pub proof fn lemma_leaf_codes_syms(n: HuffmanTreeNode, path: u128, depth: nat)
    requires
        n.wf(),
    ensures
        n.leaf_codes(path, depth).len() == n.leaf_syms().len(),
        forall|k: int|
            0 <= k < n.leaf_codes(path, depth).len() ==> (#[trigger] n.leaf_codes(path, depth)[k]).0
                == n.leaf_syms()[k],
    decreases n,
{
    if n.left is Some {
        let l = *n.left->0;
        let r = *n.right->0;
        let rp = path | (1u128 << (depth as u128));
        lemma_leaf_codes_syms(l, path, depth + 1);
        lemma_leaf_codes_syms(r, rp, depth + 1);
        assert(n.leaf_codes(path, depth) =~= l.leaf_codes(path, depth + 1) + r.leaf_codes(
            rp,
            depth + 1,
        ));
        assert(n.leaf_syms() =~= l.leaf_syms() + r.leaf_syms());
    } else {
        assert(n.leaf_codes(path, depth) =~= seq![(n.symbol->0, path, depth)]);
        assert(n.leaf_syms() =~= seq![n.symbol->0]);
    }
}

/// The leaf codes below a node at (`path`, `depth`) extend that path.
pub proof fn lemma_leaf_codes_shape(n: HuffmanTreeNode, path: u128, depth: nat)
    requires
        n.wf(),
        depth + n.height() < 128,
        path < (1u128 << (depth as u128)),
    ensures
        n.leaf_codes(path, depth).len() == n.leaf_syms().len(),
        forall|k: int|
            0 <= k < n.leaf_codes(path, depth).len() ==> {
                let e = #[trigger] n.leaf_codes(path, depth)[k];
                &&& e.0 == n.leaf_syms()[k]
                &&& depth <= e.2 <= depth + n.height()
                &&& low_bits(e.1, depth as u128) == path
            },
    decreases n,
{
    lemma_low_self(path, depth as u128);
    if n.left is Some {
        lemma_child_paths(path, depth as u128);
        let l = *n.left->0;
        let r = *n.right->0;
        let rp = path | (1u128 << (depth as u128));
        lemma_leaf_codes_shape(l, path, depth + 1);
        lemma_leaf_codes_shape(r, rp, depth + 1);
        let lc = l.leaf_codes(path, depth + 1);
        let rc = r.leaf_codes(rp, depth + 1);
        assert(n.leaf_codes(path, depth) =~= lc + rc);
        assert(n.leaf_syms() =~= l.leaf_syms() + r.leaf_syms());
        assert forall|k: int| 0 <= k < lc.len() implies low_bits(#[trigger] lc[k].1, depth as u128)
            == path by {
            lemma_low_bits_of_low(lc[k].1, depth as u128, (depth + 1) as u128);
        }
        assert forall|k: int| 0 <= k < rc.len() implies low_bits(#[trigger] rc[k].1, depth as u128)
            == path by {
            lemma_low_bits_of_low(rc[k].1, depth as u128, (depth + 1) as u128);
        }
    } else {
        assert(n.leaf_codes(path, depth) =~= seq![(n.symbol->0, path, depth)]);
        assert(n.leaf_syms() =~= seq![n.symbol->0]);
    }
}

/// Codes whose low `d1` bits differ cannot be prefixes of one another once longer than `d1`.
proof fn lemma_low_bits_differ(x: u128, y: u128, d1: u128, la: u128)
    requires
        d1 <= la < 128,
        low_bits(x, d1) != low_bits(y, d1),
    ensures
        low_bits(y, la) != x,
{
    lemma_low_bits_of_low(y, d1, la);
}

/// Prefix-free codes: in a well-formed tree whose leaves carry distinct symbols,
/// any two leaves have distinct symbols and neither code is a prefix of the other.
pub proof fn lemma_prefix_free(n: HuffmanTreeNode, path: u128, depth: nat)
    requires
        n.wf(),
        n.leaf_syms().no_duplicates(),
        depth + n.height() < 128,
        path < (1u128 << (depth as u128)),
    ensures
        forall|i: int, j: int|
            0 <= i < n.leaf_codes(path, depth).len() && 0 <= j < n.leaf_codes(path, depth).len()
                && i != j ==> {
                let a = #[trigger] n.leaf_codes(path, depth)[i];
                let b = #[trigger] n.leaf_codes(path, depth)[j];
                a.0 != b.0 && !is_prefix((a.1, a.2), (b.1, b.2))
            },
    decreases n,
{
    lemma_leaf_codes_shape(n, path, depth);
    if n.left is Some {
        let l = *n.left->0;
        let r = *n.right->0;
        let d1 = (depth + 1) as u128;
        let rp = path | (1u128 << (depth as u128));
        lemma_child_paths(path, depth as u128);
        let ls = l.leaf_syms();
        let rs = r.leaf_syms();
        assert(n.leaf_syms() =~= ls + rs);
        assert(ls.no_duplicates()) by {
            assert forall|i: int, j: int| 0 <= i < ls.len() && 0 <= j < ls.len() && i != j implies ls[i]
                != ls[j] by {
                assert((ls + rs)[i] == ls[i] && (ls + rs)[j] == ls[j]);
            }
        }
        assert(rs.no_duplicates()) by {
            assert forall|i: int, j: int| 0 <= i < rs.len() && 0 <= j < rs.len() && i != j implies rs[i]
                != rs[j] by {
                assert((ls + rs)[ls.len() + i] == rs[i] && (ls + rs)[ls.len() + j] == rs[j]);
            }
        }
        lemma_prefix_free(l, path, depth + 1);
        lemma_prefix_free(r, rp, depth + 1);
        lemma_leaf_codes_shape(l, path, depth + 1);
        lemma_leaf_codes_shape(r, rp, depth + 1);
        let lc = l.leaf_codes(path, depth + 1);
        let rc = r.leaf_codes(rp, depth + 1);
        let c = n.leaf_codes(path, depth);
        assert(c =~= lc + rc);
        assert forall|i: int, j: int| 0 <= i < c.len() && 0 <= j < c.len() && i != j implies {
            let a = #[trigger] c[i];
            let b = #[trigger] c[j];
            a.0 != b.0 && !is_prefix((a.1, a.2), (b.1, b.2))
        } by {
            if i < lc.len() && j >= lc.len() {
                let a = lc[i];
                let b = rc[j - lc.len()];
                assert((ls + rs)[i] == ls[i]);
                assert((ls + rs)[j] == rs[j - lc.len()]);
                lemma_low_bits_differ(a.1, b.1, d1, a.2 as u128);
            } else if i >= lc.len() && j < lc.len() {
                let a = rc[i - lc.len()];
                let b = lc[j];
                assert((ls + rs)[j] == ls[j]);
                assert((ls + rs)[i] == rs[i - lc.len()]);
                lemma_low_bits_differ(a.1, b.1, d1, a.2 as u128);
            }
        }
    }
}

} // verus!
