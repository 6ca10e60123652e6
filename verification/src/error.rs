//! Structured errors, grouped by the subsystem that raises them.

use vstd::prelude::*;

verus! {

/// Failures of the byte codec.
#[derive(Clone, Copy, Debug, PartialEq, Eq, Structural)]
pub enum CodecError {
    /// The input ends, or the output buffer is full, before the entity does.
    Truncated,
    /// A tag or marker is not one the format knows.
    Malformed,
    /// A field holds a value that its encoding has no room for.
    OutOfRange,
}

/// Failures of the cryptographic primitives.
#[derive(Clone, Copy, Debug, PartialEq, Eq, Structural)]
pub enum CryptoError {
    /// A signature does not verify, or is not a valid encoding.
    BadSignature,
    /// Bytes that are not a valid key.
    BadKey,
    /// Fewer or more signatures than distinct spending keys.
    MissingSignature,
}

/// Failures of the chain rules.
#[derive(Clone, Copy, Debug, PartialEq, Eq, Structural)]
pub enum ConsensusError {
    /// A block does not link to the hash of its predecessor.
    WrongBackHash,
    /// A block hash does not meet the difficulty target.
    InsufficientWork,
}

/// Failures of the ledger rules.
#[derive(Clone, Copy, Debug, PartialEq, Eq, Structural)]
pub enum LedgerError {
    /// Something is spent that its spender does not hold: an identifier,
    /// or more dust than the balance of the key, as when the same dust is
    /// spent a second time.
    UnknownOutput,
    /// The same transfers stand twice in one block.
    DoubleSpend,
    /// A value is read as what it is not, or a fee is more than the amount
    /// it is paid from.
    ValueMismatch,
    /// An identifier is handed to a key that already holds it.
    DuplicateNft,
    /// An identifier is minted that is held already.
    DuplicateNftMint,
}

/// Failures of the miner.
#[derive(Clone, Copy, Debug, PartialEq, Eq, Structural)]
pub enum MinerError {
    /// The search was called off before a magic was found.
    Cancelled,
    /// The candidates handed to the search are used up.
    Exhausted,
}

/// Every error the library returns.
#[derive(Clone, Copy, Debug, PartialEq, Eq, Structural)]
pub enum Error {
    Codec(CodecError),
    Crypto(CryptoError),
    Consensus(ConsensusError),
    Ledger(LedgerError),
    Miner(MinerError),
}

} // verus!
