//! Block encoder: counts a block's symbols, builds its two code tables, and
//! writes the header and the packed codes with their extra bits.
use std::collections::VecDeque;
use vstd::prelude::*;

use crate::bit_writer::{bits_of, BitWriter};
use crate::constants::{
    DIST_ALPHABET_SIZE, DIST_BASE_CODES, DIST_EXTRA_BITS, END_OF_STREAM_ID, FIRST_LEN_CODE,
    LEN_BASE_CODES, LEN_EXTRA_BITS, LIT_LEN_ALPHABET_SIZE,
};
use crate::huffman::{freq_sum, get_huffman_tree, huffman_tree, tree_ok};
use crate::huffman_tree_node::{lemma_child_paths, lemma_leaf_codes_syms, HuffmanTreeNode};
use crate::lz77::{valid_symbol, LzSymbol};

verus! {

/// The greatest position below `n` whose base is at most `v`, or 0 if none is.
pub open spec fn code_index(v: int, base: Seq<u16>, n: nat) -> int
    decreases n,
{
    if n == 0 {
        0
    } else if base[n - 1] <= v {
        n - 1
    } else {
        code_index(v, base, (n - 1) as nat)
    }
}

/// Length code position of a match length.
pub open spec fn len_index(len: u16) -> int {
    code_index(len as int, LEN_BASE_CODES@, 29)
}

/// Distance code position of a match distance.
pub open spec fn dist_index(dist: u16) -> int {
    code_index(dist as int, DIST_BASE_CODES@, 30)
}

proof fn lemma_code_index(v: int, base: Seq<u16>, n: nat)
    requires
        1 <= n <= base.len(),
        base[0] <= v,
        forall|i: int, j: int| 0 <= i < j < n ==> base[i] < base[j],
    ensures
        0 <= code_index(v, base, n) < n,
        base[code_index(v, base, n)] <= v,
        code_index(v, base, n) + 1 < n ==> v < base[code_index(v, base, n) + 1],
    decreases n,
{
    if n > 1 && base[n - 1] > v {
        lemma_code_index(v, base, (n - 1) as nat);
    }
}

/// The residual of a length (or distance) above its code's base always fits in
/// the code's extra bits; for the largest length, 258, and the largest distance,
/// 32768, the last code of each table is taken.
pub proof fn lemma_extra_bits_fit(len: u16, dist: u16)
    requires
        3 <= len <= 258,
        1 <= dist <= 32768,
    ensures
        0 <= len_index(len) < 29,
        LEN_BASE_CODES@[len_index(len)] <= len,
        len - LEN_BASE_CODES@[len_index(len)] < vstd::arithmetic::power2::pow2(
            LEN_EXTRA_BITS@[len_index(len)] as nat,
        ),
        len == 258 ==> len_index(len) == 28,
        0 <= dist_index(dist) < 30,
        DIST_BASE_CODES@[dist_index(dist)] <= dist,
        dist - DIST_BASE_CODES@[dist_index(dist)] < vstd::arithmetic::power2::pow2(
            DIST_EXTRA_BITS@[dist_index(dist)] as nat,
        ),
        dist == 32768 ==> dist_index(dist) == 29,
{
    vstd::arithmetic::power2::lemma2_to64();
    let lb = LEN_BASE_CODES@;
    let db = DIST_BASE_CODES@;
    assert forall|i: int, j: int| 0 <= i < j < 29 implies lb[i] < lb[j] by {
        assert forall|k: int| 0 <= k < 28 implies #[trigger] lb[k] < lb[k + 1] by {}
        lemma_sorted_steps(lb, 29);
    }
    assert forall|i: int, j: int| 0 <= i < j < 30 implies db[i] < db[j] by {
        assert forall|k: int| 0 <= k < 29 implies #[trigger] db[k] < db[k + 1] by {}
        lemma_sorted_steps(db, 30);
    }
    lemma_code_index(len as int, lb, 29);
    lemma_code_index(dist as int, db, 30);
    let li = len_index(len);
    let di = dist_index(dist);
    assert(li + 1 < 29 ==> lb[li + 1] - lb[li] <= vstd::arithmetic::power2::pow2(
        LEN_EXTRA_BITS@[li] as nat,
    ));
    assert(di + 1 < 30 ==> db[di + 1] - db[di] <= vstd::arithmetic::power2::pow2(
        DIST_EXTRA_BITS@[di] as nat,
    ));
}

proof fn lemma_sorted_steps(s: Seq<u16>, n: nat)
    requires
        n <= s.len(),
        forall|k: int| 0 <= k < n - 1 ==> #[trigger] s[k] < s[k + 1],
    ensures
        forall|i: int, j: int| 0 <= i < j < n ==> s[i] < s[j],
    decreases n,
{
    if n > 0 {
        lemma_sorted_steps(s, (n - 1) as nat);
        assert forall|i: int, j: int| 0 <= i < j < n implies s[i] < s[j] by {
            if j == n - 1 && i < n - 2 {
                assert(s[i] < s[n - 2]);
            }
        }
    }
}

/// Greatest position of `base_codes` whose base is at most `val`, or 0 if none is.
pub fn get_code_index(val: u16, base_codes: &[u16]) -> (r: u16)
    requires
        base_codes@.len() <= 65536,
    ensures
        r == code_index(val as int, base_codes@, base_codes@.len()),
{
    let mut i: usize = base_codes.len();
    while i > 0
        invariant
            i <= base_codes@.len() <= 65536,
            code_index(val as int, base_codes@, base_codes@.len()) == code_index(
                val as int,
                base_codes@,
                i as nat,
            ),
        decreases i,
    {
        if val >= base_codes[i - 1] {
            return (i - 1) as u16;
        }
        i -= 1;
    }
    0
}

/// The distance code position and the literal/length symbol of a pointer.
pub fn get_hm_code_for_lz_ptr(dist: &u16, len: &u16) -> (r: (u16, u16))
    ensures
        r.0 == dist_index(*dist),
        r.1 == FIRST_LEN_CODE + len_index(*len),
{
    let dist_idx = get_code_index(*dist, DIST_BASE_CODES.as_slice());
    let len_idx = get_code_index(*len, LEN_BASE_CODES.as_slice());
    proof {
        lemma_code_index_bound(*dist as int, DIST_BASE_CODES@, 30);
        lemma_code_index_bound(*len as int, LEN_BASE_CODES@, 29);
    }
    (dist_idx, FIRST_LEN_CODE as u16 + len_idx)
}

proof fn lemma_code_index_bound(v: int, base: Seq<u16>, n: nat)
    ensures
        0 <= code_index(v, base, n) < if n == 0 {
            1
        } else {
            n
        },
    decreases n,
{
    if n > 0 {
        lemma_code_index_bound(v, base, (n - 1) as nat);
    }
}

/// The slot that a symbol counts in: of the literal/length alphabet, or with
/// `dist`, of the distance alphabet (-1 for a literal, which has none).
pub open spec fn slot_of(s: LzSymbol, dist: bool) -> int {
    match s {
        LzSymbol::Literal(v) => if dist {
            -1
        } else {
            v as int
        },
        LzSymbol::Pointer { dist: d, len } => if dist {
            dist_index(d)
        } else {
            FIRST_LEN_CODE + len_index(len)
        },
    }
}

/// Number of symbols of `syms` that count in slot `k`.
pub open spec fn slot_count(syms: Seq<LzSymbol>, k: int, dist: bool) -> nat
    decreases syms.len(),
{
    if syms.len() == 0 {
        0
    } else {
        slot_count(syms.drop_last(), k, dist) + if slot_of(syms.last(), dist) == k {
            1nat
        } else {
            0nat
        }
    }
}

/// Literal/length frequencies of a block; the last block's end-of-stream slot is 1.
pub open spec fn ll_freqs(syms: Seq<LzSymbol>, is_last: bool) -> Seq<usize> {
    Seq::new(
        LIT_LEN_ALPHABET_SIZE as nat,
        |k: int|
            if is_last && k == END_OF_STREAM_ID {
                1usize
            } else {
                slot_count(syms, k, false) as usize
            },
    )
}

/// Distance frequencies of a block.
pub open spec fn dist_freqs(syms: Seq<LzSymbol>) -> Seq<usize> {
    Seq::new(DIST_ALPHABET_SIZE as nat, |k: int| slot_count(syms, k, true) as usize)
}

/// Sum of the slot counts of the slots below `m`.
spec fn count_sum(syms: Seq<LzSymbol>, m: nat, dist: bool) -> nat
    decreases m,
{
    if m == 0 {
        0
    } else {
        count_sum(syms, (m - 1) as nat, dist) + slot_count(syms, m - 1, dist)
    }
}

proof fn lemma_slot_count_bound(syms: Seq<LzSymbol>, k: int, dist: bool)
    ensures
        slot_count(syms, k, dist) <= syms.len(),
    decreases syms.len(),
{
    if syms.len() > 0 {
        lemma_slot_count_bound(syms.drop_last(), k, dist);
    }
}

proof fn lemma_count_sum_push(syms: Seq<LzSymbol>, x: LzSymbol, m: nat, dist: bool)
    ensures
        count_sum(syms.push(x), m, dist) == count_sum(syms, m, dist) + if 0 <= slot_of(x, dist)
            < m {
            1nat
        } else {
            0nat
        },
    decreases m,
{
    assert(syms.push(x).drop_last() =~= syms);
    if m > 0 {
        lemma_count_sum_push(syms, x, (m - 1) as nat, dist);
    }
}

proof fn lemma_count_sum_bound(syms: Seq<LzSymbol>, m: nat, dist: bool)
    ensures
        count_sum(syms, m, dist) <= syms.len(),
    decreases syms.len(), m,
{
    if syms.len() == 0 {
        if m > 0 {
            lemma_count_sum_bound(syms, (m - 1) as nat, dist);
        }
    } else {
        let d = syms.drop_last();
        lemma_count_sum_bound(d, m, dist);
        lemma_count_sum_push(d, syms.last(), m, dist);
        assert(d.push(syms.last()) =~= syms);
    }
}

proof fn lemma_freq_sum_ll(syms: Seq<LzSymbol>, is_last: bool, m: nat)
    requires
        m <= LIT_LEN_ALPHABET_SIZE,
        syms.len() < usize::MAX,
    ensures
        freq_sum(ll_freqs(syms, is_last), m) <= count_sum(syms, m, false) + 1,
    decreases m,
{
    if m > 0 {
        lemma_freq_sum_ll(syms, is_last, (m - 1) as nat);
        lemma_slot_count_bound(syms, m - 1, false);
        if is_last && m - 1 == END_OF_STREAM_ID {
            assert(freq_sum(ll_freqs(syms, is_last), (m - 1) as nat) <= count_sum(
                syms,
                (m - 1) as nat,
                false,
            )) by {
                lemma_freq_sum_ll_below(syms, is_last, (m - 1) as nat);
            }
        }
    }
}

proof fn lemma_freq_sum_ll_below(syms: Seq<LzSymbol>, is_last: bool, m: nat)
    requires
        m <= END_OF_STREAM_ID,
        syms.len() < usize::MAX,
    ensures
        freq_sum(ll_freqs(syms, is_last), m) <= count_sum(syms, m, false),
    decreases m,
{
    if m > 0 {
        lemma_freq_sum_ll_below(syms, is_last, (m - 1) as nat);
        lemma_slot_count_bound(syms, m - 1, false);
    }
}

proof fn lemma_freq_sum_dist(syms: Seq<LzSymbol>, m: nat)
    requires
        m <= DIST_ALPHABET_SIZE,
        syms.len() < usize::MAX,
    ensures
        freq_sum(dist_freqs(syms), m) <= count_sum(syms, m, true),
    decreases m,
{
    if m > 0 {
        lemma_freq_sum_dist(syms, (m - 1) as nat);
        lemma_slot_count_bound(syms, m - 1, true);
    }
}

/// The frequency tables of a block fit the tree builder's bound.
proof fn lemma_block_freqs_fit(syms: Seq<LzSymbol>, is_last: bool)
    requires
        syms.len() < usize::MAX,
    ensures
        freq_sum(ll_freqs(syms, is_last), LIT_LEN_ALPHABET_SIZE as nat) <= usize::MAX,
        freq_sum(dist_freqs(syms), DIST_ALPHABET_SIZE as nat) <= usize::MAX,
{
    lemma_freq_sum_ll(syms, is_last, LIT_LEN_ALPHABET_SIZE as nat);
    lemma_count_sum_bound(syms, LIT_LEN_ALPHABET_SIZE as nat, false);
    lemma_freq_sum_dist(syms, DIST_ALPHABET_SIZE as nat);
    lemma_count_sum_bound(syms, DIST_ALPHABET_SIZE as nat, true);
}

/// A vector of `n` zeros.
fn zero_counts(n: usize) -> (r: Vec<usize>)
    ensures
        r@ == Seq::new(n as nat, |k: int| 0usize),
{
    let mut r: Vec<usize> = Vec::new();
    while r.len() < n
        invariant
            r@.len() <= n,
            r@ == Seq::new(r@.len(), |k: int| 0usize),
        decreases n - r@.len(),
    {
        r.push(0);
        assert(r@ =~= Seq::new(r@.len(), |k: int| 0usize));
    }
    r
}

/// `counts` with each slot raised by the number of symbols of `syms` that count in it.
pub open spec fn add_counts(counts: Seq<usize>, syms: Seq<LzSymbol>, dist: bool) -> Seq<usize> {
    Seq::new(counts.len(), |k: int| (counts[k] + slot_count(syms, k, dist)) as usize)
}

/// Adds the frequencies of the current block's symbols to the counts of the
/// two alphabets; for the last block the end-of-stream count becomes 1.
fn put_lit_len_dist_freq(
    lit_len_cnt: &mut Vec<usize>,
    dist_cnt: &mut Vec<usize>,
    lz_symbols: &VecDeque<LzSymbol>,
    is_last: bool,
)
    requires
        old(lit_len_cnt)@.len() == LIT_LEN_ALPHABET_SIZE,
        old(dist_cnt)@.len() == DIST_ALPHABET_SIZE,
        forall|k: int|
            0 <= k < LIT_LEN_ALPHABET_SIZE ==> #[trigger] old(lit_len_cnt)@[k] + lz_symbols@.len()
                <= usize::MAX,
        forall|k: int|
            0 <= k < DIST_ALPHABET_SIZE ==> #[trigger] old(dist_cnt)@[k] + lz_symbols@.len()
                <= usize::MAX,
        forall|k: int| 0 <= k < lz_symbols@.len() ==> valid_symbol(#[trigger] lz_symbols@[k]),
    ensures
        final(lit_len_cnt)@ == if is_last {
            add_counts(old(lit_len_cnt)@, lz_symbols@, false).update(END_OF_STREAM_ID as int, 1)
        } else {
            add_counts(old(lit_len_cnt)@, lz_symbols@, false)
        },
        final(dist_cnt)@ == add_counts(old(dist_cnt)@, lz_symbols@, true),
{
    let ghost syms = lz_symbols@;
    let ghost ll0 = lit_len_cnt@;
    let ghost d0 = dist_cnt@;
    let mut i: usize = 0;
    assert(lit_len_cnt@ =~= add_counts(ll0, syms.take(0), false));
    assert(dist_cnt@ =~= add_counts(d0, syms.take(0), true));
    while i < lz_symbols.len()
        invariant
            syms == lz_symbols@,
            i <= syms.len(),
            ll0.len() == LIT_LEN_ALPHABET_SIZE,
            d0.len() == DIST_ALPHABET_SIZE,
            forall|k: int| 0 <= k < LIT_LEN_ALPHABET_SIZE ==> #[trigger] ll0[k] + syms.len() <= usize::MAX,
            forall|k: int| 0 <= k < DIST_ALPHABET_SIZE ==> #[trigger] d0[k] + syms.len() <= usize::MAX,
            forall|k: int| 0 <= k < syms.len() ==> valid_symbol(#[trigger] syms[k]),
            lit_len_cnt@ == add_counts(ll0, syms.take(i as int), false),
            dist_cnt@ == add_counts(d0, syms.take(i as int), true),
        decreases syms.len() - i,
    {
        let ghost before = syms.take(i as int);
        let ghost after = syms.take(i + 1);
        assert(after.drop_last() =~= before);
        proof {
            lemma_slot_count_bound(before, slot_of(syms[i as int], false), false);
            lemma_slot_count_bound(before, slot_of(syms[i as int], true), true);
        }
        match &lz_symbols[i] {
            LzSymbol::Literal(lit) => {
                let c = lit_len_cnt[*lit as usize];
                lit_len_cnt.set(*lit as usize, c + 1);
            },
            LzSymbol::Pointer { dist, len } => {
                let (dist_code, len_code) = get_hm_code_for_lz_ptr(dist, len);
                proof {
                    lemma_extra_bits_fit(*len, *dist);
                }
                let c = lit_len_cnt[len_code as usize];
                lit_len_cnt.set(len_code as usize, c + 1);
                let c = dist_cnt[dist_code as usize];
                dist_cnt.set(dist_code as usize, c + 1);
            },
        }
        i += 1;
        assert(lit_len_cnt@ =~= add_counts(ll0, syms.take(i as int), false));
        assert(dist_cnt@ =~= add_counts(d0, syms.take(i as int), true));
    }
    assert(syms.take(i as int) =~= syms);
    if is_last {
        lit_len_cnt.set(END_OF_STREAM_ID, 1);
    }
}

/// The table `t` after each leaf (symbol, path, depth) of `codes`, in order,
/// has set its symbol's entry to (path, depth).
pub open spec fn apply_codes(t: Seq<(u128, u8)>, codes: Seq<(usize, u128, nat)>) -> Seq<(u128, u8)>
    decreases codes.len(),
{
    if codes.len() == 0 {
        t
    } else {
        apply_codes(t.update(codes[0].0 as int, (codes[0].1, codes[0].2 as u8)), codes.skip(1))
    }
}

/// A table of `n` entries that assigns no code.
pub open spec fn empty_table(n: nat) -> Seq<(u128, u8)> {
    Seq::new(n, |k: int| (0u128, 0u8))
}

/// The code table of a frequency table: each leaf of its Huffman tree gives its
/// symbol the leaf's path and depth; the other symbols keep length 0.
pub open spec fn code_table(f: Seq<usize>) -> Seq<(u128, u8)> {
    apply_codes(empty_table(f.len()), huffman_tree(f).leaf_codes(0, 0))
}

proof fn lemma_apply_codes_concat(
    t: Seq<(u128, u8)>,
    a: Seq<(usize, u128, nat)>,
    b: Seq<(usize, u128, nat)>,
)
    ensures
        apply_codes(t, a + b) == apply_codes(apply_codes(t, a), b),
    decreases a.len(),
{
    if a.len() == 0 {
        assert(a + b =~= b);
    } else {
        let t1 = t.update(a[0].0 as int, (a[0].1, a[0].2 as u8));
        lemma_apply_codes_concat(t1, a.skip(1), b);
        assert((a + b).skip(1) =~= a.skip(1) + b);
    }
}

proof fn lemma_apply_codes_len(t: Seq<(u128, u8)>, codes: Seq<(usize, u128, nat)>)
    requires
        forall|k: int| 0 <= k < codes.len() ==> (#[trigger] codes[k]).0 < t.len(),
    ensures
        apply_codes(t, codes).len() == t.len(),
    decreases codes.len(),
{
    if codes.len() > 0 {
        let t1 = t.update(codes[0].0 as int, (codes[0].1, codes[0].2 as u8));
        assert forall|k: int| 0 <= k < codes.skip(1).len() implies (#[trigger] codes.skip(1)[k]).0
            < t1.len() by {
            assert(codes.skip(1)[k] == codes[k + 1]);
        }
        lemma_apply_codes_len(t1, codes.skip(1));
    }
}

/// Code lengths in a table built from leaves less than 128 deep stay below 128.
proof fn lemma_apply_codes_bound(t: Seq<(u128, u8)>, codes: Seq<(usize, u128, nat)>)
    requires
        forall|k: int| 0 <= k < t.len() ==> (#[trigger] t[k]).1 < 128,
        forall|k: int| 0 <= k < codes.len() ==> (#[trigger] codes[k]).2 < 128 && codes[k].0 < t.len(),
    ensures
        apply_codes(t, codes).len() == t.len(),
        forall|k: int|
            0 <= k < apply_codes(t, codes).len() ==> (#[trigger] apply_codes(t, codes)[k]).1 < 128,
    decreases codes.len(),
{
    if codes.len() > 0 {
        let t1 = t.update(codes[0].0 as int, (codes[0].1, codes[0].2 as u8));
        assert forall|k: int| 0 <= k < codes.skip(1).len() implies (#[trigger] codes.skip(1)[k]).2
            < 128 by {
            assert(codes.skip(1)[k] == codes[k + 1]);
        }
        assert forall|k: int| 0 <= k < codes.skip(1).len() implies (#[trigger] codes.skip(1)[k]).0
            < t1.len() by {
            assert(codes.skip(1)[k] == codes[k + 1]);
        }
        lemma_apply_codes_bound(t1, codes.skip(1));
    }
}

/// Code lengths of a code table are below 128.
proof fn lemma_code_table_bound(f: Seq<usize>)
    requires
        tree_ok(huffman_tree(f), f.len()),
    ensures
        code_table(f).len() == f.len(),
        forall|k: int| 0 <= k < code_table(f).len() ==> (#[trigger] code_table(f)[k]).1 < 128,
{
    let t = huffman_tree(f);
    assert(0u128 < (1u128 << 0u128)) by (bit_vector);
    crate::huffman_tree_node::lemma_leaf_codes_shape(t, 0, 0);
    assert forall|k: int| 0 <= k < t.leaf_codes(0, 0).len() implies (#[trigger] t.leaf_codes(
        0,
        0,
    )[k]).0 < f.len() by {
        assert(t.leaf_syms()[k] < f.len());
    }
    lemma_apply_codes_bound(empty_table(f.len()), t.leaf_codes(0, 0));
}

/// A code table of `n` entries that assigns no code.
fn new_code_table(n: usize) -> (r: Vec<(u128, u8)>)
    ensures
        r@ == empty_table(n as nat),
{
    let mut r: Vec<(u128, u8)> = Vec::new();
    while r.len() < n
        invariant
            r@.len() <= n,
            r@ == empty_table(r@.len()),
        decreases n - r@.len(),
    {
        r.push((0, 0));
        assert(r@ =~= empty_table(r@.len()));
    }
    r
}

/// Records, for every leaf below `tree_node`, its path and depth in the table
/// under its symbol; `path` and `height` locate `tree_node` itself.
fn map_canonical_codes_to_lz_symbols(
    canonical_codes_map: &mut Vec<(u128, u8)>,
    tree_node: HuffmanTreeNode,
    path: u128,
    height: u8,
)
    requires
        tree_node.wf(),
        height + tree_node.height() <= 128,
        height < 128 ==> path < (1u128 << (height as u128)),
        forall|k: int|
            0 <= k < tree_node.leaf_syms().len() ==> #[trigger] tree_node.leaf_syms()[k] < old(
                canonical_codes_map,
            )@.len(),
    ensures
        final(canonical_codes_map)@ == apply_codes(
            old(canonical_codes_map)@,
            tree_node.leaf_codes(path, height as nat),
        ),
    decreases tree_node,
{
    let ghost t0 = canonical_codes_map@;
    let ghost node = tree_node;
    let is_leaf = tree_node.is_leaf();
    let HuffmanTreeNode { weight: _, left, right, symbol } = tree_node;
    if is_leaf {
        if let Some(s) = symbol {
            assert(node.leaf_syms()[0] == s);
            canonical_codes_map.set(s, (path, height));
            proof {
                let c = node.leaf_codes(path, height as nat);
                assert(c =~= seq![(s, path, height as nat)]);
                assert(c.skip(1) =~= Seq::<(usize, u128, nat)>::empty());
                let t1 = t0.update(s as int, (path, height));
                assert(apply_codes(t1, c.skip(1)) == t1);
                assert(apply_codes(t0, c) == apply_codes(t1, c.skip(1)));
            }
        }
    } else {
        let ghost l = *node.left->0;
        let ghost r = *node.right->0;
        let ghost rp = path | (1u128 << (height as u128));
        proof {
            if height < 127 {
                lemma_child_paths(path, height as u128);
            }
            assert(node.leaf_codes(path, height as nat) =~= l.leaf_codes(path, (height + 1) as nat)
                + r.leaf_codes(rp, (height + 1) as nat));
            assert(node.leaf_syms() =~= l.leaf_syms() + r.leaf_syms());
            assert forall|k: int| 0 <= k < l.leaf_syms().len() implies #[trigger] l.leaf_syms()[k]
                < t0.len() by {
                assert(node.leaf_syms()[k] == l.leaf_syms()[k]);
            }
            lemma_leaf_codes_syms(l, path, (height + 1) as nat);
            assert forall|k: int| 0 <= k < l.leaf_codes(path, (height + 1) as nat).len() implies (
            #[trigger] l.leaf_codes(path, (height + 1) as nat)[k]).0 < t0.len() by {
                assert(l.leaf_syms()[k] < t0.len());
            }
            lemma_apply_codes_len(t0, l.leaf_codes(path, (height + 1) as nat));
            lemma_apply_codes_concat(
                t0,
                l.leaf_codes(path, (height + 1) as nat),
                r.leaf_codes(rp, (height + 1) as nat),
            );
        }
        if let Some(lb) = left {
            map_canonical_codes_to_lz_symbols(canonical_codes_map, *lb, path, height + 1);
        }
        proof {
            assert forall|k: int| 0 <= k < r.leaf_syms().len() implies #[trigger] r.leaf_syms()[k]
                < canonical_codes_map@.len() by {
                assert(node.leaf_syms()[l.leaf_syms().len() + k] == r.leaf_syms()[k]);
            }
        }
        if let Some(rb) = right {
            let new_path: u128 = path | (1u128 << height);
            map_canonical_codes_to_lz_symbols(canonical_codes_map, *rb, new_path, height + 1);
        }
    }
}

/// The bits of one table entry's code: its `length` low bits of `pattern`.
pub open spec fn code_bits(e: (u128, u8)) -> Seq<bool> {
    bits_of(e.0, e.1 as nat)
}

/// The header part of a table: each entry's code length as an 8-bit field.
pub open spec fn header_bits(t: Seq<(u128, u8)>) -> Seq<bool>
    decreases t.len(),
{
    if t.len() == 0 {
        Seq::empty()
    } else {
        header_bits(t.drop_last()) + bits_of(t.last().1 as u128, 8)
    }
}

/// The bits of one symbol: a literal's code, or a pointer's length code, the
/// length above its base in the length code's extra bits, the distance code,
/// and the distance above its base in the distance code's extra bits.
pub open spec fn symbol_bits(s: LzSymbol, ll: Seq<(u128, u8)>, d: Seq<(u128, u8)>) -> Seq<bool> {
    match s {
        LzSymbol::Literal(v) => code_bits(ll[v as int]),
        LzSymbol::Pointer { dist, len } => {
            let li = len_index(len);
            let di = dist_index(dist);
            code_bits(ll[FIRST_LEN_CODE + li]) + bits_of(
                (len - LEN_BASE_CODES@[li]) as u128,
                LEN_EXTRA_BITS@[li] as nat,
            ) + code_bits(d[di]) + bits_of(
                (dist - DIST_BASE_CODES@[di]) as u128,
                DIST_EXTRA_BITS@[di] as nat,
            )
        },
    }
}

/// The bits of a symbol sequence, in order.
pub open spec fn symbols_bits(syms: Seq<LzSymbol>, ll: Seq<(u128, u8)>, d: Seq<(u128, u8)>) -> Seq<
    bool,
>
    decreases syms.len(),
{
    if syms.len() == 0 {
        Seq::empty()
    } else {
        symbol_bits(syms[0], ll, d) + symbols_bits(syms.skip(1), ll, d)
    }
}

/// The bits of a whole block: the two tables' code lengths, the symbols'
/// codes, and for the last block the end-of-stream code.
pub open spec fn block_bits(syms: Seq<LzSymbol>, is_last: bool) -> Seq<bool> {
    let ll = code_table(ll_freqs(syms, is_last));
    let d = code_table(dist_freqs(syms));
    header_bits(ll) + header_bits(d) + symbols_bits(syms, ll, d) + if is_last {
        code_bits(ll[END_OF_STREAM_ID as int])
    } else {
        Seq::empty()
    }
}

/// Code lengths of a table are at most 128, the most a write takes.
pub open spec fn lengths_ok(t: Seq<(u128, u8)>) -> bool {
    forall|k: int| 0 <= k < t.len() ==> (#[trigger] t[k]).1 <= 128
}

/// Writes the code length of every entry of `t` as an 8-bit field.
fn write_lengths(t: &Vec<(u128, u8)>, bit_writer: &mut BitWriter)
    requires
        old(bit_writer).wf(),
    ensures
        final(bit_writer).wf(),
        final(bit_writer).bits() == old(bit_writer).bits() + header_bits(t@),
{
    let ghost start = bit_writer.bits();
    let mut i: usize = 0;
    assert(t@.take(0) =~= Seq::<(u128, u8)>::empty());
    while i < t.len()
        invariant
            i <= t@.len(),
            bit_writer.wf(),
            bit_writer.bits() == start + header_bits(t@.take(i as int)),
        decreases t@.len() - i,
    {
        let (_, len) = t[i];
        bit_writer.write_bits(len as u128, 8);
        proof {
            assert(t@.take(i + 1).drop_last() =~= t@.take(i as int));
            assert(start + header_bits(t@.take(i as int)) + bits_of(len as u128, 8) =~= start
                + header_bits(t@.take(i + 1)));
        }
        i += 1;
    }
    assert(t@.take(i as int) =~= t@);
}

/// Writes the block header: the code lengths of the literal/length table,
/// then those of the distance table.
fn write_header(
    lit_len_canonical_map: &Vec<(u128, u8)>,
    dist_canonical_map: &Vec<(u128, u8)>,
    bit_writer: &mut BitWriter,
)
    requires
        old(bit_writer).wf(),
    ensures
        final(bit_writer).wf(),
        final(bit_writer).bits() == old(bit_writer).bits() + header_bits(lit_len_canonical_map@)
            + header_bits(dist_canonical_map@),
{
    write_lengths(lit_len_canonical_map, bit_writer);
    write_lengths(dist_canonical_map, bit_writer);
    assert(old(bit_writer).bits() + header_bits(lit_len_canonical_map@) + header_bits(
        dist_canonical_map@,
    ) =~= old(bit_writer).bits() + header_bits(lit_len_canonical_map@) + header_bits(
        dist_canonical_map@,
    ));
}

/// Writes one symbol with the two tables: its code and, for a pointer, the
/// extra bits that carry each value's residual above its code's base.
fn write_to_stream(
    symbol: &LzSymbol,
    lit_len_canonical_map: &Vec<(u128, u8)>,
    dist_canonical_map: &Vec<(u128, u8)>,
    bit_writer: &mut BitWriter,
)
    requires
        old(bit_writer).wf(),
        valid_symbol(*symbol),
        lit_len_canonical_map@.len() == LIT_LEN_ALPHABET_SIZE,
        dist_canonical_map@.len() == DIST_ALPHABET_SIZE,
        lengths_ok(lit_len_canonical_map@),
        lengths_ok(dist_canonical_map@),
    ensures
        final(bit_writer).wf(),
        final(bit_writer).bits() == old(bit_writer).bits() + symbol_bits(
            *symbol,
            lit_len_canonical_map@,
            dist_canonical_map@,
        ),
{
    match symbol {
        LzSymbol::Literal(lit) => {
            let (code, code_len) = lit_len_canonical_map[*lit as usize];
            bit_writer.write_bits(code, code_len);
        },
        LzSymbol::Pointer { dist, len } => {
            let ghost b0 = bit_writer.bits();
            let (dist_sym, len_sym) = get_hm_code_for_lz_ptr(dist, len);
            proof {
                lemma_extra_bits_fit(*len, *dist);
            }
            let (len_code, len_code_sz) = lit_len_canonical_map[len_sym as usize];
            let len_idx = len_sym as usize - FIRST_LEN_CODE;
            let extra_bits_len = LEN_EXTRA_BITS[len_idx];
            bit_writer.write_bits(len_code, len_code_sz);
            let ghost b1 = bit_writer.bits();
            if extra_bits_len > 0 {
                let extra_bits = (*len - LEN_BASE_CODES[len_idx]) as u128;
                bit_writer.write_bits(extra_bits, extra_bits_len);
            } else {
                assert(bits_of((*len - LEN_BASE_CODES@[len_idx as int]) as u128, 0) =~= Seq::<
                    bool,
                >::empty());
                assert(b1 + Seq::<bool>::empty() =~= b1);
            }
            let ghost b2 = bit_writer.bits();
            let (dist_code, dist_code_sz) = dist_canonical_map[dist_sym as usize];
            let extra_bits_dist = DIST_EXTRA_BITS[dist_sym as usize];
            bit_writer.write_bits(dist_code, dist_code_sz);
            let ghost b3 = bit_writer.bits();
            if extra_bits_dist > 0 {
                let extra_bits = (*dist - DIST_BASE_CODES[dist_sym as usize]) as u128;
                bit_writer.write_bits(extra_bits, extra_bits_dist);
            } else {
                assert(bits_of((*dist - DIST_BASE_CODES@[dist_sym as int]) as u128, 0) =~= Seq::<
                    bool,
                >::empty());
                assert(b3 + Seq::<bool>::empty() =~= b3);
            }
            assert(bit_writer.bits() =~= b0 + symbol_bits(
                *symbol,
                lit_len_canonical_map@,
                dist_canonical_map@,
            ));
        },
    }
}

/// Encodes one block, which it consumes: counts its symbols, builds the
/// literal/length and distance trees and their code tables, writes the header,
/// then each symbol in order; the last block ends with the end-of-stream code.
pub fn process_huffman(
    lz_symbols: &mut VecDeque<LzSymbol>,
    bit_writer: &mut BitWriter,
    is_last: bool,
)
    requires
        old(bit_writer).wf(),
        old(lz_symbols)@.len() < usize::MAX,
        forall|k: int| 0 <= k < old(lz_symbols)@.len() ==> valid_symbol(#[trigger] old(lz_symbols)@[k]),
    ensures
        final(bit_writer).wf(),
        final(bit_writer).bits() == old(bit_writer).bits() + block_bits(old(lz_symbols)@, is_last),
        final(lz_symbols)@ == Seq::<LzSymbol>::empty(),
{
    let ghost syms = lz_symbols@;
    let ghost start = bit_writer.bits();
    let mut lit_len_cnt = zero_counts(LIT_LEN_ALPHABET_SIZE);
    let mut dist_cnt = zero_counts(DIST_ALPHABET_SIZE);
    let mut lit_len_canonical_map = new_code_table(LIT_LEN_ALPHABET_SIZE);
    let mut dist_canonical_map = new_code_table(DIST_ALPHABET_SIZE);

    put_lit_len_dist_freq(&mut lit_len_cnt, &mut dist_cnt, lz_symbols, is_last);
    assert(lit_len_cnt@ =~= ll_freqs(syms, is_last));
    assert(dist_cnt@ =~= dist_freqs(syms));
    proof {
        lemma_block_freqs_fit(syms, is_last);
    }
    let lit_len_tree_head_node = get_huffman_tree(&lit_len_cnt);
    let dist_tree_head_node = get_huffman_tree(&dist_cnt);
    let ghost ll_tree = lit_len_tree_head_node;
    let ghost d_tree = dist_tree_head_node;
    proof {
        assert(0u128 < (1u128 << 0u8 as u128)) by (bit_vector);
        lemma_code_table_bound(ll_freqs(syms, is_last));
        lemma_code_table_bound(dist_freqs(syms));
    }
    map_canonical_codes_to_lz_symbols(&mut lit_len_canonical_map, lit_len_tree_head_node, 0, 0);
    map_canonical_codes_to_lz_symbols(&mut dist_canonical_map, dist_tree_head_node, 0, 0);
    let ghost ll = lit_len_canonical_map@;
    let ghost d = dist_canonical_map@;
    assert(ll == code_table(ll_freqs(syms, is_last)));
    assert(d == code_table(dist_freqs(syms)));

    write_header(&lit_len_canonical_map, &dist_canonical_map, bit_writer);
    let ghost after_header = bit_writer.bits();
    assert(syms.skip(0) =~= syms);
    while lz_symbols.len() > 0
        invariant
            bit_writer.wf(),
            ll == lit_len_canonical_map@,
            d == dist_canonical_map@,
            ll.len() == LIT_LEN_ALPHABET_SIZE,
            d.len() == DIST_ALPHABET_SIZE,
            lengths_ok(ll),
            lengths_ok(d),
            lz_symbols@.len() <= syms.len(),
            lz_symbols@ == syms.skip(syms.len() - lz_symbols@.len()),
            forall|k: int| 0 <= k < syms.len() ==> valid_symbol(#[trigger] syms[k]),
            bit_writer.bits() + symbols_bits(lz_symbols@, ll, d) == after_header + symbols_bits(
                syms,
                ll,
                d,
            ),
        decreases lz_symbols@.len(),
    {
        let ghost rest = lz_symbols@;
        let ghost before = bit_writer.bits();
        if let Some(symbol) = lz_symbols.pop_front() {
            assert(symbol == syms[syms.len() - rest.len()]);
            write_to_stream(&symbol, &lit_len_canonical_map, &dist_canonical_map, bit_writer);
            proof {
                assert(lz_symbols@ =~= rest.skip(1));
                assert(lz_symbols@ =~= syms.skip(syms.len() - lz_symbols@.len()));
                assert(before + symbols_bits(rest, ll, d) =~= bit_writer.bits() + symbols_bits(
                    lz_symbols@,
                    ll,
                    d,
                ));
            }
        }
    }
    proof {
        assert(symbols_bits(lz_symbols@, ll, d) == Seq::<bool>::empty());
        assert(bit_writer.bits() + Seq::<bool>::empty() =~= bit_writer.bits());
        assert(bit_writer.bits() == after_header + symbols_bits(syms, ll, d));
    }
    let ghost before_end = bit_writer.bits();
    if is_last {
        let (eos_code, eos_code_len) = lit_len_canonical_map[END_OF_STREAM_ID];
        bit_writer.write_bits(eos_code, eos_code_len);
    }
    proof {
        if !is_last {
            assert(before_end + Seq::<bool>::empty() =~= before_end);
        }
        assert(after_header == start + header_bits(ll) + header_bits(d));
    }
    assert(bit_writer.bits() =~= start + block_bits(syms, is_last));
}

} // verus!
