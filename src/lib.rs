//! A wagering ledger: tenants ("servers") hold accounts with coin balances,
//! open bets with fixed outcomes, take stakes, and pay winners or refund.

pub mod amount;
pub mod payout;
pub mod structs;
pub mod bets;
pub mod credit;
pub mod rows;

pub use amount::Amount;
pub use bets::Bets;
pub use structs::{AccountRow, AccountStatus, AccountUpdate, Bet, BetError, BetInfo, BetRow, Outcome, Position, WagerRow};
