use vstd::prelude::*;

verus! {

/// Size of the read buffer whose refills make the blocks.
pub const READER_CAPACITY: usize = 1048576;

/// Size of the literal/length alphabet: byte literals 0..=255, the end-of-block
/// symbol 256, the length codes 257..=285 and the end-of-stream symbol 286.
pub const LIT_LEN_ALPHABET_SIZE: usize = 287;

/// Size of the distance alphabet.
pub const DIST_ALPHABET_SIZE: usize = 30;

/// Literal value that closes a block which is not the last one.
pub const END_OF_BLOCK_ID: usize = 256;

/// Literal value that closes the last block of a stream.
pub const END_OF_STREAM_ID: usize = 286;

/// First literal/length symbol that stands for a match length.
pub const FIRST_LEN_CODE: usize = 257;

/// Number of length codes.
pub const N_LEN_CODES: usize = 29;

pub const LEN_BASE_CODES: [u16; 29] = [
    3, 4, 5, 6, 7, 8, 9, 10, 11, 13, 15, 17, 19, 23, 27, 31, 35, 43, 51, 59, 67, 83, 99, 115, 131,
    163, 195, 227, 258,
];

pub const LEN_EXTRA_BITS: [u8; 29] = [
    0, 0, 0, 0, 0, 0, 0, 0, 1, 1, 1, 1, 2, 2, 2, 2, 3, 3, 3, 3, 4, 4, 4, 4, 5, 5, 5, 5, 0,
];

pub const DIST_BASE_CODES: [u16; 30] = [
    1, 2, 3, 4, 5, 7, 9, 13, 17, 25, 33, 49, 65, 97, 129, 193, 257, 385, 513, 769, 1025, 1537,
    2049, 3073, 4097, 6145, 8193, 12289, 16385, 24577,
];

pub const DIST_EXTRA_BITS: [u8; 30] = [
    0, 0, 0, 0, 1, 1, 2, 2, 3, 3, 4, 4, 5, 5, 6, 6, 7, 7, 8, 8, 9, 9, 10, 10, 11, 11, 12, 12, 13,
    13,
];

} // verus!
