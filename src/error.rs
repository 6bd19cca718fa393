use vstd::prelude::*;

verus! {

/// Errors pertaining to processing fuzzy hashes
#[derive(Debug, PartialEq, Eq, Structural)]
pub enum Error {
    /// Fuzzy hashes must contain at least one common substring for comparison
    NoCommonSubstrings,
    /// At least one input string is in the wrong format
    MalformedInput,
    /// Cannot parse the block size of the string
    BlockSizeParse,
    /// Two strings have incompatible block sizes. Sizes must be equal, or one twice the other.
    IncompatibleBlockSizes,
    /// String contains too many blocks for comparison
    TooManyBlocks,
}

impl Error {
    /// A sentence that says what went wrong.
    pub fn description(&self) -> &'static str {
        match self {
            Error::NoCommonSubstrings => "No common substrings were found between two fuzzy hashes",
            Error::MalformedInput => "Strings are not in proper fuzzy hash format",
            Error::BlockSizeParse => "Could not parse block sizes in string(s)",
            Error::IncompatibleBlockSizes => "Fuzzy hashes have incompatible block sizes",
            Error::TooManyBlocks => "Total number of blocks exceeds limit",
        }
    }
}

} // verus!
