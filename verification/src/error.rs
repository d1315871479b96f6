use vstd::prelude::*;

verus! {

/// Why an operation on the ledger was refused. A refused operation leaves
/// the ledger exactly as it was.
#[derive(Debug, Clone, Copy, PartialEq, Eq, Structural)]
pub enum LedgerError {
    /// No channel has the identifier given.
    ChannelNotFound,
    /// A channel with the identifier given exists already.
    DuplicateChannel,
    /// The token is not among the minted tokens.
    TokenNotFound,
    /// The caller is not the authority of the ledger.
    Unauthorized,
    /// A mint after the first of a channel came without a proof.
    ProofRequired,
    /// The proof does not lead to the channel's commitment root.
    InvalidProof,
    /// The caller does not hold the token.
    NotOwner,
    /// Sender and receiver of a transfer are the same account.
    SameAccount,
    /// The text is not a channel identifier, one colon and a token number.
    InvalidTokenId,
    /// The channel's token numbers are used up.
    SupplyExhausted,
}

} // verus!
