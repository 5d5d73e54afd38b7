//! An escrow-style betting ledger with a fixed deadline.
//!
//! Participants lock a fixed stake against a predicted score before the
//! deadline. Afterwards the authority declares the result once, and the pot is
//! shared among the matching bets in proportion to their stakes, or goes to the
//! authority when nobody matched.

pub mod address;
pub mod arith;
pub mod laws;
pub mod ledger;
pub mod lemmas;
pub mod model;
pub mod types;

pub use address::Address;
pub use ledger::LAPorra;
pub use types::{Bet, Error, Transfer};
