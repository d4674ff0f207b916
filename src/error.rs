use vstd::prelude::*;

verus! {

/// Why a scanner declined its input.
#[derive(Clone, Copy, Debug, PartialEq, Eq, Structural)]
pub enum ScanError {
    /// The input ended before the token could even be checked.
    TooShort,
    /// Enough input was present, but it does not follow the token's grammar.
    Invalid,
    /// The token matched, but its value does not fit.
    OutOfRange,
}

/// What a scanner returns: what it decoded, or why it declined.
pub type ScanResult<T> = Result<T, ScanError>;

} // verus!
