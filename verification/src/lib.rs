//! Lossless byte-stream compression with Huffman coding.
//!
//! A container is self-describing: it starts with the 256 byte counts of the
//! input (eight little-endian bytes each, 2048 bytes in all), followed by one
//! byte giving the number of meaningful bits in the last payload byte, followed
//! by the packed payload. The count table costs more room than a serialized
//! tree shape would, but the decoder rebuilds the code tree from it with the
//! same reduction that the encoder ran, and it also tells the decoder how many
//! symbols to expect.

pub mod frequency;
pub mod tree;
pub mod codes;
pub mod bits;
pub mod decode;
pub mod container;

pub use crate::frequency::byte_frequencies;
pub use crate::tree::{freq_to_tree, huff_reduce, make_tree, HuffTree, HuffTreeData, Node};
pub use crate::codes::{code_table, make_encoding_table};
pub use crate::container::{compress, decompress, DecodeError};
