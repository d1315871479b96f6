//! An issuance ledger for numbered tokens in named channels.
//!
//! A channel issues tokens numbered from one. Every token after the first
//! needs a Merkle proof that leads from its identifier to the commitment root
//! of its channel (`merkle`, `hashing`). The ledger (`contract`) keeps three
//! records in step: the channels with their counters (`channel`, `channels`),
//! the set of minted tokens (`token_set`) and the ownership index (`owners`).
//!
//! The behaviour is stated over a mathematical model of the ledger (`state`):
//! each operation of `Contract` takes the model from one state to the next as
//! the functions of `LedgerState` say, and `history` proves what holds of
//! every sequence of operations.

pub mod assoc;
pub mod channel;
pub mod channels;
pub mod contract;
pub mod error;
pub mod hashing;
pub mod history;
pub mod keys;
pub mod merkle;
pub mod metadata;
pub mod owners;
pub mod snapshot;
pub mod state;
pub mod token_id;
pub mod token_set;

pub use channel::{Channel, ChannelView};
pub use contract::{AccountId, Contract, TokenId};
pub use error::LedgerError;
pub use metadata::{ChannelMetadata, JsonToken, NFTContractMetadata, TokenMetadata};
pub use snapshot::Snapshot;
