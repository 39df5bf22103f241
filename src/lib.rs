//! A fixed-supply fungible token ledger: the whole supply is credited to one
//! holder at creation, and holders move units to one another by transfers that
//! never create or destroy value.

mod error;
pub mod laws;
pub mod model;
mod token;

pub use error::LedgerError;
pub use token::{transfer_amounts, AccountId, FungibleToken, DEFAULT_TOTAL_SUPPLY};

