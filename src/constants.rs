use vstd::prelude::*;

verus! {

/// Number of bytes in the rolling hash's window.
pub const ROLLING_WINDOW: usize = 7;

/// The smallest block size; block size `i` of the ladder is `MIN_BLOCK_SIZE << i`.
pub const MIN_BLOCK_SIZE: u32 = 3;

/// Number of block-size contexts the hasher keeps.
pub const NUM_BLOCKHASHES: u32 = 31;

/// Longest signature a context produces.
pub const SPAM_SUM_LENGTH: u32 = 64;

/// Hashing modes
#[derive(Clone, Copy, Debug, PartialEq, Eq, Structural)]
pub enum Modes {
    /// No special behavior
    Normal,
    /// Eliminate sequences of more than three identical characters
    EliminateSequences,
    /// Do not truncate the second part to `SPAM_SUM_LENGTH / 2` characters
    DoNotTruncate,
}

/// The byte `:` that separates the fields of a hash.
pub const SEPARATOR: u8 = 58;

/// The character of the base64 alphabet `A-Z a-z 0-9 + /` at `pos`, or 0 past its end.
pub open spec fn base64_char(pos: int) -> u8 {
    if 0 <= pos < 26 {
        (65 + pos) as u8
    } else if 26 <= pos < 52 {
        (97 + (pos - 26)) as u8
    } else if 52 <= pos < 62 {
        (48 + (pos - 52)) as u8
    } else if pos == 62 {
        43
    } else if pos == 63 {
        47
    } else {
        0u8
    }
}

/// Whether `c` belongs to the base64 alphabet.
pub open spec fn is_base64(c: u8) -> bool {
    (65 <= c <= 90) || (97 <= c <= 122) || (48 <= c <= 57) || c == 43 || c == 47
}

/// Whether every byte of `s` belongs to the base64 alphabet.
pub open spec fn all_base64(s: Seq<u8>) -> bool {
    forall|k: int| 0 <= k < s.len() ==> is_base64(#[trigger] s[k])
}

pub proof fn lemma_base64_char(pos: int)
    requires
        0 <= pos < 64,
    ensures
        is_base64(base64_char(pos)),
        base64_char(pos) != 0,
        base64_char(pos) != SEPARATOR,
{
}

pub(crate) fn get_base64_char(pos: usize) -> (r: u8)
    ensures
        r == base64_char(pos as int),
{
    if pos < 26 {
        65 + pos as u8
    } else if pos < 52 {
        97 + (pos - 26) as u8
    } else if pos < 62 {
        48 + (pos - 52) as u8
    } else if pos == 62 {
        43
    } else if pos == 63 {
        47
    } else {
        0
    }
}

} // verus!
