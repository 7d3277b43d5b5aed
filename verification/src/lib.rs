use vstd::prelude::*;

pub mod bits;
pub mod compressor;
pub mod frequency_table;
pub mod huffman_tree;

verus! {

/// How an operation of this library can fail.  Every failure is returned as a
/// value; no verified function of the crate panics.
#[derive(Clone, Copy, Debug, PartialEq, Eq)]
pub enum CompressError {
    /// A container handed to `uncompress` is malformed: a buffer shorter than
    /// a declared length field requires, a tree tag byte that is neither 0
    /// nor 1, or a declared bit length that does not match the packed bytes.
    CorruptContainer,
    /// A Huffman tree was requested from a frequency table with no entries.
    EmptyAlphabet,
}

} // verus!
