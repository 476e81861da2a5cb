pub mod bit_writer;
pub mod compressor;
pub mod constants;
pub mod encoder;
pub mod huffman;
pub mod huffman_tree_node;
pub mod lz77;
