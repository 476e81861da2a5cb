//! Sliding-window LZ77 matcher: turns raw bytes into literal and pointer symbols.
use std::collections::VecDeque;
use vstd::prelude::*;

use crate::constants::{END_OF_BLOCK_ID, END_OF_STREAM_ID};

verus! {

/// One symbol of a block: a literal (a byte value or a block/stream sentinel),
/// or a back-reference of `len` bytes starting `dist` bytes back in the history.
#[derive(Debug, PartialEq, Eq, Structural, Hash, Clone, Copy, PartialOrd, Ord)]
pub enum LzSymbol {
    Literal(u16),
    Pointer { dist: u16, len: u16 },
}

/// Capacity of the history window.
pub const WINDOW_SIZE: usize = 32768;

/// Shortest match that is emitted as a pointer.
pub const MIN_MATCH_SEARCH_SIZE: usize = 3;

/// Longest match, and capacity of the lookahead buffer.
pub const MAX_MATCH_SEARCH_SIZE: usize = 258;

/// Length of the match that starts at position `i` of `w + b` against `b`,
/// counting on from `k` bytes that are known to agree.
pub open spec fn match_len(w: Seq<u8>, b: Seq<u8>, i: int, k: nat) -> nat
    decreases b.len() - k,
{
    if k < b.len() && (w + b)[i + k] == b[k as int] {
        match_len(w, b, i, k + 1)
    } else {
        k
    }
}

/// Best match over the window positions `lo..w.len()`, scanned from the most
/// recent one down: `(length, start)`. Only a strictly longer match replaces
/// the one found so far, so among equal lengths the nearest start wins.
pub open spec fn best_match(w: Seq<u8>, b: Seq<u8>, lo: int) -> (nat, int)
    decreases w.len() - lo,
{
    if lo >= w.len() || lo < 0 {
        (0, 0)
    } else {
        let rest = best_match(w, b, lo + 1);
        let l = match_len(w, b, lo, 0);
        if l > rest.0 {
            (l, lo)
        } else {
            rest
        }
    }
}

/// The symbol that describes the head of the lookahead `b` given the window `w`.
pub open spec fn token_for(w: Seq<u8>, b: Seq<u8>) -> LzSymbol {
    let best = best_match(w, b, 0);
    if best.0 < MIN_MATCH_SEARCH_SIZE {
        LzSymbol::Literal(b[0] as u16)
    } else {
        LzSymbol::Pointer { dist: (w.len() - best.1) as u16, len: best.0 as u16 }
    }
}

/// Number of input bytes that a symbol stands for.
pub open spec fn consumed(s: LzSymbol) -> nat {
    match s {
        LzSymbol::Literal(_) => 1,
        LzSymbol::Pointer { len, .. } => len as nat,
    }
}

/// The window after the bytes `s` have been appended to `w`: its last
/// `WINDOW_SIZE` bytes at most.
pub open spec fn slide(w: Seq<u8>, s: Seq<u8>) -> Seq<u8> {
    let c = w + s;
    if c.len() > WINDOW_SIZE {
        c.subrange(c.len() - WINDOW_SIZE, c.len() as int)
    } else {
        c
    }
}

/// The lookahead for the unread input `rest`: its first `MAX_MATCH_SEARCH_SIZE` bytes at most.
pub open spec fn lookahead(rest: Seq<u8>) -> Seq<u8> {
    if rest.len() > MAX_MATCH_SEARCH_SIZE {
        rest.take(MAX_MATCH_SEARCH_SIZE as int)
    } else {
        rest
    }
}

/// The symbols that the matcher emits for `rest`, starting from the window `w`.
pub open spec fn lz_tokens(w: Seq<u8>, rest: Seq<u8>) -> Seq<LzSymbol>
    decreases rest.len(),
{
    if rest.len() == 0 {
        Seq::empty()
    } else {
        let t = token_for(w, lookahead(rest));
        let n = consumed(t);
        if 0 < n <= rest.len() {
            seq![t] + lz_tokens(slide(w, rest.take(n as int)), rest.skip(n as int))
        } else {
            seq![t]
        }
    }
}

/// The sentinel that closes a block: end of block, except for a last block
/// with no input, which holds only the end-of-stream symbol.
pub open spec fn block_end(is_last: bool, empty: bool) -> LzSymbol {
    if is_last && empty {
        LzSymbol::Literal(END_OF_STREAM_ID as u16)
    } else {
        LzSymbol::Literal(END_OF_BLOCK_ID as u16)
    }
}

/// `h` extended by copying `n` bytes one at a time from `dist` bytes back
/// (a copy may overlap the bytes it produces).
pub open spec fn copy_back(h: Seq<u8>, dist: nat, n: nat) -> Seq<u8>
    decreases n,
{
    if n == 0 {
        h
    } else {
        let p = copy_back(h, dist, (n - 1) as nat);
        p.push(p[p.len() - dist])
    }
}

/// The history `h` after one symbol is decoded; sentinels add nothing.
pub open spec fn apply_symbol(h: Seq<u8>, s: LzSymbol) -> Seq<u8> {
    match s {
        LzSymbol::Literal(v) => if v < 256 {
            h.push(v as u8)
        } else {
            h
        },
        LzSymbol::Pointer { dist, len } => copy_back(h, dist as nat, len as nat),
    }
}

/// The history `h` after the symbols `syms` are decoded in order.
pub open spec fn decode(h: Seq<u8>, syms: Seq<LzSymbol>) -> Seq<u8>
    decreases syms.len(),
{
    if syms.len() == 0 {
        h
    } else {
        decode(apply_symbol(h, syms[0]), syms.skip(1))
    }
}

/// Every symbol is within its domain: a literal is a byte or a sentinel below 287,
/// a pointer has a distance in 1..=32768 and a length in 3..=258.
pub open spec fn valid_symbol(s: LzSymbol) -> bool {
    match s {
        LzSymbol::Literal(v) => v < 287,
        LzSymbol::Pointer { dist, len } => 1 <= dist <= WINDOW_SIZE && MIN_MATCH_SEARCH_SIZE <= len
            <= MAX_MATCH_SEARCH_SIZE,
    }
}

proof fn lemma_match_len(w: Seq<u8>, b: Seq<u8>, i: int, k: nat)
    requires
        k <= b.len(),
    ensures
        k <= match_len(w, b, i, k) <= b.len(),
        forall|j: int| k <= j < match_len(w, b, i, k) ==> (w + b)[i + j] == b[j],
    decreases b.len() - k,
{
    if k < b.len() && (w + b)[i + k] == b[k as int] {
        lemma_match_len(w, b, i, k + 1);
    }
}

proof fn lemma_best_match(w: Seq<u8>, b: Seq<u8>, lo: int)
    requires
        0 <= lo,
    ensures
        best_match(w, b, lo).0 <= b.len(),
        best_match(w, b, lo).0 > 0 ==> lo <= best_match(w, b, lo).1 < w.len() && match_len(
            w,
            b,
            best_match(w, b, lo).1,
            0,
        ) == best_match(w, b, lo).0,
    decreases w.len() - lo,
{
    if lo < w.len() {
        lemma_best_match(w, b, lo + 1);
        lemma_match_len(w, b, lo, 0);
    }
}

/// Once a match covers the whole lookahead, scanning older positions changes nothing.
proof fn lemma_best_match_full(w: Seq<u8>, b: Seq<u8>, lo: int, hi: int)
    requires
        0 <= lo <= hi,
        best_match(w, b, hi).0 == b.len(),
    ensures
        best_match(w, b, lo) == best_match(w, b, hi),
    decreases hi - lo,
{
    if lo < hi {
        lemma_best_match_full(w, b, lo + 1, hi);
        if lo < w.len() {
            lemma_match_len(w, b, lo, 0);
        }
    }
}

/// What a token describes: a literal of the first byte, or a pointer whose
/// bytes agree with the lookahead.
proof fn lemma_token_for(w: Seq<u8>, b: Seq<u8>)
    requires
        0 < b.len() <= MAX_MATCH_SEARCH_SIZE,
        w.len() <= WINDOW_SIZE,
    ensures
        valid_symbol(token_for(w, b)),
        1 <= consumed(token_for(w, b)) <= b.len(),
        match token_for(w, b) {
            LzSymbol::Literal(v) => v == b[0] as u16,
            LzSymbol::Pointer { dist, len } => dist <= w.len() && forall|k: int|
                0 <= k < len ==> #[trigger] (w + b)[w.len() - dist + k] == b[k],
        },
{
    lemma_best_match(w, b, 0);
    let best = best_match(w, b, 0);
    if best.0 >= MIN_MATCH_SEARCH_SIZE {
        lemma_match_len(w, b, best.1, 0);
    }
}

proof fn lemma_slide_slide(w: Seq<u8>, a: Seq<u8>, b: Seq<u8>)
    ensures
        slide(slide(w, a), b) == slide(w, a + b),
        slide(w, a).len() <= WINDOW_SIZE,
{
    assert(w + a + b =~= w + (a + b));
    assert(slide(slide(w, a), b) =~= slide(w, a + b));
}

/// Copying `n` bytes from `d` back reproduces `b`'s first `n` bytes when they
/// agree with the bytes `d` places before them.
proof fn lemma_copy_back(h: Seq<u8>, b: Seq<u8>, d: nat, n: nat)
    requires
        1 <= d <= h.len(),
        n <= b.len(),
        forall|k: int| 0 <= k < n ==> #[trigger] (h + b)[h.len() - d + k] == b[k],
    ensures
        copy_back(h, d, n) == h + b.take(n as int),
    decreases n,
{
    if n > 0 {
        lemma_copy_back(h, b, d, (n - 1) as nat);
        let p = copy_back(h, d, (n - 1) as nat);
        let k = n - 1;
        assert((h + b)[h.len() - d + k] == b[k]);
        assert(p[p.len() - d] == (h + b)[h.len() - d + k]);
        assert(h + b.take(n as int) =~= p.push(b[k]));
    }
}

proof fn lemma_decode_append(h: Seq<u8>, s: LzSymbol, rest: Seq<LzSymbol>)
    ensures
        decode(h, seq![s] + rest) == decode(apply_symbol(h, s), rest),
{
    assert((seq![s] + rest).skip(1) =~= rest);
}

/// Decoding the matcher's symbols for `rest` from any history `h` that ends
/// with the window `w` appends exactly `rest` to `h`.
proof fn lemma_decode_tokens(h: Seq<u8>, w: Seq<u8>, rest: Seq<u8>)
    requires
        w.len() <= WINDOW_SIZE,
        w.len() <= h.len(),
        h.subrange(h.len() - w.len(), h.len() as int) == w,
    ensures
        decode(h, lz_tokens(w, rest)) == h + rest,
    decreases rest.len(),
{
    if rest.len() == 0 {
        assert(h + rest =~= h);
    } else {
        let b = lookahead(rest);
        lemma_token_for(w, b);
        let t = token_for(w, b);
        let n = consumed(t);
        let h2 = h + rest.take(n as int);
        assert(rest.take(n as int) =~= b.take(n as int));
        match t {
            LzSymbol::Literal(v) => {
                assert(h2 =~= h.push(b[0]));
            },
            LzSymbol::Pointer { dist, len } => {
                assert forall|k: int| 0 <= k < len implies #[trigger] (h + b)[h.len() - dist + k]
                    == b[k] by {
                    assert((w + b)[w.len() - dist + k] == b[k]);
                    if h.len() - dist + k < h.len() {
                        assert(h[h.len() - dist + k] == w[w.len() - dist + k]);
                    }
                }
                lemma_copy_back(h, b, dist as nat, len as nat);
            },
        }
        assert(apply_symbol(h, t) == h2);
        let w2 = slide(w, rest.take(n as int));
        lemma_slide_slide(w, rest.take(n as int), Seq::empty());
        assert(w2.len() <= h2.len());
        assert(h2.subrange(h2.len() - w2.len(), h2.len() as int) =~= w2);
        lemma_decode_tokens(h2, w2, rest.skip(n as int));
        lemma_decode_append(h, t, lz_tokens(w2, rest.skip(n as int)));
        assert(h2 + rest.skip(n as int) =~= h + rest);
    }
}

/// Round trip: the symbols that the matcher emits for `inp`, decoded as copies
/// against the window `w` that grows in emission order, give back exactly `inp`
/// after `w`.
pub proof fn lemma_lz77_round_trip(w: Seq<u8>, inp: Seq<u8>)
    requires
        w.len() <= WINDOW_SIZE,
    ensures
        decode(w, lz_tokens(w, inp)) == w + inp,
{
    assert(w.subrange(0, w.len() as int) =~= w);
    lemma_decode_tokens(w, w, inp);
}

/// The byte at position `p` of the window followed by the lookahead.
fn byte_at(window: &VecDeque<u8>, buffer: &VecDeque<u8>, p: usize) -> (r: u8)
    requires
        p < window@.len() + buffer@.len(),
    ensures
        r == (window@ + buffer@)[p as int],
{
    if p < window.len() {
        window[p]
    } else {
        buffer[p - window.len()]
    }
}

/// Gets the next token from the window and buffer: a pointer to the longest
/// match of at least `MIN_MATCH_SEARCH_SIZE` bytes (the nearest among equals),
/// else a literal of the buffer's first byte.
fn get_token(window: &VecDeque<u8>, buffer: &VecDeque<u8>) -> (r: LzSymbol)
    requires
        0 < buffer@.len() <= MAX_MATCH_SEARCH_SIZE,
        window@.len() <= WINDOW_SIZE,
    ensures
        r == token_for(window@, buffer@),
{
    let ghost w = window@;
    let ghost b = buffer@;
    let mut mx_ind: usize = 0;
    let mut mx_len: usize = 0;
    let mut i: usize = window.len();
    while i > 0
        invariant
            w == window@,
            b == buffer@,
            0 < b.len() <= MAX_MATCH_SEARCH_SIZE,
            w.len() <= WINDOW_SIZE,
            i <= w.len(),
            best_match(w, b, i as int) == (mx_len as nat, mx_ind as int),
        ensures
            i == 0 || mx_len == b.len(),
            best_match(w, b, i as int) == (mx_len as nat, mx_ind as int),
        decreases i,
    {
        if mx_len == buffer.len() {
            break;
        }
        i = i - 1;
        let mut k: usize = 0;
        while k < buffer.len() && byte_at(window, buffer, i + k) == buffer[k]
            invariant
                w == window@,
                b == buffer@,
                b.len() <= MAX_MATCH_SEARCH_SIZE,
                i < w.len() <= WINDOW_SIZE,
                k <= b.len(),
                match_len(w, b, i as int, 0) == match_len(w, b, i as int, k as nat),
            decreases b.len() - k,
        {
            k += 1;
        }
        if k > mx_len {
            mx_ind = i;
            mx_len = k;
        }
    }
    proof {
        if i > 0 {
            lemma_best_match_full(w, b, 0, i as int);
        }
        lemma_best_match(w, b, 0);
    }
    if mx_len < MIN_MATCH_SEARCH_SIZE {
        LzSymbol::Literal(buffer[0] as u16)
    } else {
        LzSymbol::Pointer { dist: (window.len() - mx_ind) as u16, len: mx_len as u16 }
    }
}

/// Refills the buffer from the input, up to `MAX_MATCH_SEARCH_SIZE` bytes;
/// `inp_str_ptr` is the position of the first input byte not yet buffered.
fn refill_buffer(inp_chunks: &[u8], buffer: &mut VecDeque<u8>, inp_str_ptr: &mut usize)
    requires
        *old(inp_str_ptr) <= inp_chunks@.len(),
        old(buffer)@.len() <= *old(inp_str_ptr),
        old(buffer)@.len() <= MAX_MATCH_SEARCH_SIZE,
        old(buffer)@ == inp_chunks@.subrange(
            *old(inp_str_ptr) - old(buffer)@.len(),
            *old(inp_str_ptr) as int,
        ),
    ensures
        *final(inp_str_ptr) - final(buffer)@.len() == *old(inp_str_ptr) - old(buffer)@.len(),
        final(buffer)@ == lookahead(
            inp_chunks@.skip(*old(inp_str_ptr) - old(buffer)@.len()),
        ),
        *final(inp_str_ptr) <= inp_chunks@.len(),
{
    let ghost start = *inp_str_ptr - buffer@.len();
    let room = MAX_MATCH_SEARCH_SIZE - buffer.len();
    let left = inp_chunks.len() - *inp_str_ptr;
    let req_sz = if room < left {
        room
    } else {
        left
    };
    let end = *inp_str_ptr + req_sz;
    while *inp_str_ptr < end
        invariant
            end <= inp_chunks@.len(),
            0 <= start,
            end == start + buffer@.len() + (end - *inp_str_ptr),
            *inp_str_ptr <= end,
            start + buffer@.len() == *inp_str_ptr,
            buffer@ == inp_chunks@.subrange(start, *inp_str_ptr as int),
        decreases end - *inp_str_ptr,
    {
        buffer.push_back(inp_chunks[*inp_str_ptr]);
        *inp_str_ptr = *inp_str_ptr + 1;
        assert(buffer@ =~= inp_chunks@.subrange(start, *inp_str_ptr as int));
    }
    assert(buffer@ =~= lookahead(inp_chunks@.skip(start)));
}

/// Appends to `out_chunks` the symbols for `inp_chunks`, matched against the
/// window that earlier blocks left, then the end-of-block sentinel; for a last
/// block with no input, the end-of-stream sentinel alone. The window takes in the
/// consumed bytes and keeps its last `WINDOW_SIZE` of them.
pub fn process_lz77(
    inp_chunks: &[u8],
    out_chunks: &mut VecDeque<LzSymbol>,
    window: &mut VecDeque<u8>,
    is_last: bool,
)
    requires
        old(window)@.len() <= WINDOW_SIZE,
    ensures
        final(out_chunks)@ == old(out_chunks)@ + lz_tokens(old(window)@, inp_chunks@).push(
            block_end(is_last, inp_chunks@.len() == 0),
        ),
        final(window)@ == slide(old(window)@, inp_chunks@),
{
    let ghost w0 = window@;
    let ghost out0 = out_chunks@;
    let mut buffer: VecDeque<u8> = VecDeque::new();
    let mut inp_str_ptr: usize = 0;
    assert(buffer@ =~= inp_chunks@.subrange(0, 0));
    refill_buffer(inp_chunks, &mut buffer, &mut inp_str_ptr);
    proof {
        assert(inp_chunks@.skip(0) =~= inp_chunks@);
        assert(slide(w0, Seq::empty()) =~= w0);
        lemma_slide_slide(w0, Seq::empty(), inp_chunks@);
        assert(Seq::<u8>::empty() + inp_chunks@ =~= inp_chunks@);
    }
    while buffer.len() > 0
        invariant
            window@.len() <= WINDOW_SIZE,
            inp_str_ptr <= inp_chunks@.len(),
            buffer@.len() <= inp_str_ptr,
            buffer@ == lookahead(inp_chunks@.skip(inp_str_ptr - buffer@.len())),
            out_chunks@ + lz_tokens(window@, inp_chunks@.skip(inp_str_ptr - buffer@.len()))
                == out0 + lz_tokens(w0, inp_chunks@),
            slide(window@, inp_chunks@.skip(inp_str_ptr - buffer@.len())) == slide(
                w0,
                inp_chunks@,
            ),
        decreases inp_chunks@.len() - (inp_str_ptr - buffer@.len()),
    {
        let ghost start = inp_str_ptr - buffer@.len();
        let ghost rest = inp_chunks@.skip(start);
        let ghost w = window@;
        let token: LzSymbol = get_token(window, &buffer);
        proof {
            lemma_token_for(w, buffer@);
        }
        let sz: usize = match token {
            LzSymbol::Pointer { dist: _, len } => len as usize,
            LzSymbol::Literal(_) => 1,
        };
        out_chunks.push_back(token);
        let ghost taken = rest.take(sz as int);
        let mut moved: usize = 0;
        while moved < sz
            invariant
                sz <= buffer@.len() + moved,
                moved <= sz,
                buffer@ == lookahead(rest).skip(moved as int),
                window@ == w + taken.take(moved as int),
                taken == rest.take(sz as int),
                sz <= lookahead(rest).len(),
                w.len() <= WINDOW_SIZE,
            decreases sz - moved,
        {
            if let Some(byte) = buffer.pop_front() {
                window.push_back(byte);
                proof {
                    assert(window@ =~= w + taken.take(moved + 1));
                }
            }
            moved = moved + 1;
            assert(buffer@ =~= lookahead(rest).skip(moved as int));
        }
        assert(taken.take(sz as int) =~= taken);
        while window.len() > WINDOW_SIZE
            invariant
                window@.len() <= (w + taken).len(),
                window@.len() >= WINDOW_SIZE || window@.len() == (w + taken).len(),
                window@ == (w + taken).subrange(
                    (w + taken).len() - window@.len(),
                    (w + taken).len() as int,
                ),
            decreases window@.len(),
        {
            window.pop_front();
        }
        assert(window@ =~= slide(w, taken)) by {
            if (w + taken).len() <= WINDOW_SIZE {
                assert((w + taken).subrange(0, (w + taken).len() as int) =~= w + taken);
            }
        }
        assert(buffer@ =~= inp_chunks@.subrange(
            inp_str_ptr - buffer@.len(),
            inp_str_ptr as int,
        ));
        refill_buffer(inp_chunks, &mut buffer, &mut inp_str_ptr);
        proof {
            assert(inp_chunks@.skip(start + sz) =~= rest.skip(sz as int));
            lemma_slide_slide(w, taken, rest.skip(sz as int));
            assert(taken + rest.skip(sz as int) =~= rest);
            assert(seq![token] + lz_tokens(window@, rest.skip(sz as int)) == lz_tokens(w, rest));
            assert(out_chunks@ + lz_tokens(window@, rest.skip(sz as int)) =~= out0 + lz_tokens(
                w0,
                inp_chunks@,
            ));
        }
    }
    proof {
        let start = inp_str_ptr - buffer@.len();
        assert(inp_chunks@.skip(start).len() == 0);
        assert(out_chunks@ =~= out0 + lz_tokens(w0, inp_chunks@));
        assert(inp_chunks@.skip(start) =~= Seq::<u8>::empty());
        assert(slide(window@, Seq::empty()) =~= window@);
    }
    if is_last && inp_chunks.len() == 0 {
        out_chunks.push_back(LzSymbol::Literal(END_OF_STREAM_ID as u16));
    } else {
        out_chunks.push_back(LzSymbol::Literal(END_OF_BLOCK_ID as u16));
    }
}

/// The matcher emits at most one symbol per input byte, each within its domain.
pub proof fn lemma_lz_tokens_valid(w: Seq<u8>, rest: Seq<u8>)
    requires
        w.len() <= WINDOW_SIZE,
    ensures
        lz_tokens(w, rest).len() <= rest.len(),
        forall|k: int|
            0 <= k < lz_tokens(w, rest).len() ==> valid_symbol(#[trigger] lz_tokens(w, rest)[k]),
    decreases rest.len(),
{
    if rest.len() > 0 {
        let b = lookahead(rest);
        lemma_token_for(w, b);
        let t = token_for(w, b);
        let n = consumed(t);
        let w2 = slide(w, rest.take(n as int));
        lemma_slide_slide(w, rest.take(n as int), Seq::empty());
        lemma_lz_tokens_valid(w2, rest.skip(n as int));
        let tail = lz_tokens(w2, rest.skip(n as int));
        assert forall|k: int| 0 <= k < lz_tokens(w, rest).len() implies valid_symbol(
            #[trigger] lz_tokens(w, rest)[k],
        ) by {
            if k > 0 {
                assert(lz_tokens(w, rest)[k] == tail[k - 1]);
            }
        }
    }
}

/// No substring of length 3 occurs twice in `s`.
pub open spec fn no_repeated_triple(s: Seq<u8>) -> bool {
    forall|i: int, j: int|
        0 <= i < j && j + 3 <= s.len() ==> !(#[trigger] s[i] == #[trigger] s[j] && s[i + 1] == s[j
            + 1] && s[i + 2] == s[j + 2])
}

proof fn lemma_literals_from(inp: Seq<u8>, h: nat, w: Seq<u8>)
    requires
        no_repeated_triple(inp),
        h <= inp.len(),
        w.len() <= WINDOW_SIZE,
        w.len() <= h,
        w == inp.subrange(h - w.len(), h as int),
    ensures
        lz_tokens(w, inp.skip(h as int)) == inp.skip(h as int).map_values(
            |b: u8| LzSymbol::Literal(b as u16),
        ),
    decreases inp.len() - h,
{
    let rest = inp.skip(h as int);
    if rest.len() == 0 {
        assert(rest.map_values(|b: u8| LzSymbol::Literal(b as u16)) =~= Seq::empty());
    } else {
        let b = lookahead(rest);
        lemma_best_match(w, b, 0);
        let best = best_match(w, b, 0);
        if best.0 >= MIN_MATCH_SEARCH_SIZE {
            lemma_match_len(w, b, best.1, 0);
            let p = h - w.len() + best.1;
            assert((w + b)[best.1 + 0] == b[0]);
            assert((w + b)[best.1 + 1] == b[1]);
            assert((w + b)[best.1 + 2] == b[2]);
            let hi = h as int;
            assert(inp[p] == inp[hi] && inp[p + 1] == inp[hi + 1] && inp[p + 2] == inp[hi + 2]);
        }
        let t = token_for(w, b);
        assert(t == LzSymbol::Literal(rest[0] as u16));
        let w2 = slide(w, rest.take(1));
        lemma_slide_slide(w, rest.take(1), Seq::empty());
        assert(w + rest.take(1) =~= inp.subrange(h - w.len(), (h + 1) as int));
        assert(w2 =~= inp.subrange(h + 1 - w2.len(), (h + 1) as int));
        lemma_literals_from(inp, h + 1, w2);
        assert(rest.skip(1) =~= inp.skip((h + 1) as int));
        assert(lz_tokens(w, rest) =~= rest.map_values(|b: u8| LzSymbol::Literal(b as u16)));
    }
}

/// An input in which no substring of length 3 occurs twice is emitted, from
/// an empty window, as one literal per byte and no pointer.
pub proof fn lemma_no_repeats_all_literals(inp: Seq<u8>)
    requires
        no_repeated_triple(inp),
    ensures
        lz_tokens(Seq::empty(), inp) == inp.map_values(|b: u8| LzSymbol::Literal(b as u16)),
{
    assert(inp.skip(0) =~= inp);
    assert(inp.subrange(0, 0) =~= Seq::<u8>::empty());
    lemma_literals_from(inp, 0, Seq::empty());
}

} // verus!
