//! The compressor: where its output goes, and one step of the pipeline per
//! chunk of input.
use std::collections::VecDeque;
use vstd::prelude::*;

use crate::bit_writer::{bytes_bits, pad_len, zeros, BitWriter};
use crate::encoder::{block_bits, process_huffman};
use crate::lz77::{
    block_end, lemma_lz_tokens_valid, lz_tokens, process_lz77, slide, valid_symbol, LzSymbol,
    WINDOW_SIZE,
};

verus! {

/// Relies on `String::push_str`: appends the characters of `t` to `s`.
#[verifier::external_body]
fn push_str(s: &mut String, t: &str)
    ensures
        final(s)@ == old(s)@ + t@,
{
    s.push_str(t)
}

/// Suffix of the output path.
pub const OUT_SUFFIX: &'static str = ".mc";

/// Input path, and the output path next to it.
#[derive(Debug)]
pub struct MCompressor {
    in_file_path: String,
    out_file_path: String,
}

/// The ways a compression run fails.
#[derive(Debug, PartialEq, Eq, Structural, Clone, Copy)]
pub enum CompressError {
    FileOpen,
    StreamRead,
    FileWrite,
}

impl MCompressor {
    pub closed spec fn in_path(&self) -> Seq<char> {
        self.in_file_path@
    }

    pub closed spec fn out_path(&self) -> Seq<char> {
        self.out_file_path@
    }

    /// The output path is the input path with `.mc` appended.
    pub fn new(in_file_path: &str) -> (r: Self)
        ensures
            r.in_path() == in_file_path@,
            r.out_path() == in_file_path@ + OUT_SUFFIX@,
    {
        let in_path = in_file_path.to_owned();
        let mut out_path = in_file_path.to_owned();
        push_str(&mut out_path, OUT_SUFFIX);
        Self { in_file_path: in_path, out_file_path: out_path }
    }

    pub fn get_in_file_path(&self) -> (r: &str)
        ensures
            r@ == self.in_path(),
    {
        self.in_file_path.as_str()
    }

    pub fn get_out_file_path(&self) -> (r: &str)
        ensures
            r@ == self.out_path(),
    {
        self.out_file_path.as_str()
    }
}

/// One step of the pipeline for one chunk of input, an empty chunk meaning the
/// end of the input: matches the chunk against the window into one block and
/// encodes that block, the last one when the chunk is empty. The last block's
/// only symbol, the end-of-stream sentinel, is not encoded as a symbol: the
/// encoder closes the last block with the end-of-stream code itself. The last
/// block is followed by zero bits up to a whole byte. Returns whether it was
/// the last.
pub fn compress_chunk(chunk: &[u8], window: &mut VecDeque<u8>, bit_writer: &mut BitWriter) -> (is_last:
    bool)
    requires
        old(window)@.len() <= WINDOW_SIZE,
        old(bit_writer).wf(),
        chunk@.len() < usize::MAX - 1,
    ensures
        is_last == (chunk@.len() == 0),
        final(window)@ == slide(old(window)@, chunk@),
        final(bit_writer).wf(),
        !is_last ==> final(bit_writer).bits() == old(bit_writer).bits() + block_bits(
            lz_tokens(old(window)@, chunk@).push(block_end(false, false)),
            false,
        ),
        is_last ==> final(bit_writer).pending() == Seq::<bool>::empty() && bytes_bits(
            final(bit_writer).bytes(),
        ) == (old(bit_writer).bits() + block_bits(Seq::empty(), true)) + zeros(
            pad_len((old(bit_writer).bits() + block_bits(Seq::empty(), true)).len()),
        ),
{
    let ghost w0 = window@;
    let is_last = chunk.len() == 0;
    let mut lz_symbols: VecDeque<LzSymbol> = VecDeque::new();
    process_lz77(chunk, &mut lz_symbols, window, is_last);
    proof {
        lemma_lz_tokens_valid(w0, chunk@);
        let toks = lz_tokens(w0, chunk@);
        assert(lz_symbols@ =~= toks.push(block_end(is_last, is_last)));
        assert forall|k: int| 0 <= k < lz_symbols@.len() implies valid_symbol(
            #[trigger] lz_symbols@[k],
        ) by {
            if k < toks.len() {
                assert(lz_symbols@[k] == toks[k]);
            }
        }
        if is_last {
            assert(toks.len() == 0);
        }
    }
    if is_last {
        lz_symbols.pop_back();
        assert(lz_symbols@ =~= Seq::<LzSymbol>::empty());
    }
    process_huffman(&mut lz_symbols, bit_writer, is_last);
    if is_last {
        bit_writer.flush_all();
    }
    is_last
}


} // verus!
