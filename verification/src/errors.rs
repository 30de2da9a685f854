//! The failure taxonomy of the codec.

use vstd::prelude::*;

verus! {

/// Everything that can go wrong inside the codec.  All variants abort the
/// current compress or decompress run; a partially written or partially
/// parsed stream is meaningless.
///
/// Failures of the surrounding input/output layer are not part of the
/// codec and are reported by the caller.
#[derive(Clone, Copy, Debug, PartialEq, Eq, Structural)]
pub enum HuffError {
    /// There is nothing to compress: the input holds no symbol.
    EmptyInput,
    /// The header terminator is missing, the header is unparsable, or it
    /// yields no entry at all.
    MalformedHeader,
    /// A symbol of the input has no entry in the code table.  This cannot
    /// happen when the table was built from the same input's frequencies.
    UnknownSymbol(char),
    /// The payload ends before every announced code bit could be read, or
    /// bits are left over that match no code: the payload is truncated or
    /// corrupted.
    UndecodableTail,
}

impl HuffError {
    /// A short human-readable name for the error kind.
    pub fn describe(&self) -> (r: &'static str)
        ensures
            r@.len() > 0,
    {
        proof {
            reveal_strlit("nothing to compress");
            reveal_strlit("malformed header");
            reveal_strlit("symbol missing from the code table");
            reveal_strlit("undecodable payload tail");
        }
        match self {
            HuffError::EmptyInput => "nothing to compress",
            HuffError::MalformedHeader => "malformed header",
            HuffError::UnknownSymbol(_) => "symbol missing from the code table",
            HuffError::UndecodableTail => "undecodable payload tail",
        }
    }
}

} // verus!
