//! A royalty-distribution ledger: identity and track registries over a
//! key-value ledger, and an exact split of a payment among weighted stakes.

pub mod contract;
pub mod ledger;
pub mod split;
pub mod types;

pub use contract::{validate_stakes, RoyaltyContract, Transfer};
pub use ledger::{Ledger, LedgerKey, LedgerValue};
pub use split::{plan_payout, split_amount, total_shares, Payout};
pub use types::{Address, Error, Fingerprint, Stake};
