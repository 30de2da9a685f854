//! A verified Huffman codec.
//!
//! The library compresses a sequence of characters into a self-describing
//! byte stream and recovers the original sequence exactly.  A compressed
//! stream consists of a textual header listing every symbol with its bit
//! code, a fixed terminator line, and a packed binary payload.
//!
//! Conventions fixed by this implementation (any consistent choice is
//! acceptable; these are observable in the exact output bytes):
//! - Merge candidates are kept sorted ascending by weight; of two candidates
//!   with equal weight the one seeded or created earlier is taken first.
//! - Of the two lowest-weight candidates, the first taken becomes the right
//!   child of the merged node and the second the left child; a left edge
//!   reads as bit `0`, a right edge as bit `1`.
//! - A tree that is a single leaf assigns its symbol the one-bit code `0`.
//! - The payload opens with the number of code bits as a little-endian
//!   64-bit count; packed bytes fill from the least significant bit, and
//!   the final partial byte is padded with `0` bits, which the count lets
//!   the decoder ignore.

pub mod bits;
pub mod code;
pub mod codec;
pub mod errors;
pub mod freq;
pub mod header;
pub mod tree;
pub mod unicode;
