//! Plain data shared by the ledger, its model and its callers.

use crate::address::Address;
use vstd::prelude::*;

verus! {

/// Why an operation was rejected.
#[derive(Clone, Copy, Debug, PartialEq, Eq, Structural)]
pub enum Error {
    /// The bet price given at creation was zero.
    InvalidConfig,
    /// A bet arrived at or after the deadline.
    BettingClosed,
    /// The payment was zero or differed from the bet price.
    InvalidPayment,
    /// The participant already holds the maximum number of bets.
    BetLimitExceeded,
    /// The participant already holds a bet on this outcome.
    DuplicateOutcome,
    /// Somebody other than the authority asked for settlement.
    Unauthorized,
    /// Settlement has already taken place.
    AlreadyResolved,
    /// Settlement was asked for before the deadline.
    TooEarlyToResolve,
}

/// One bet of one participant.
#[derive(Clone, Copy, Debug, PartialEq, Eq, Structural)]
pub struct Bet {
    /// Predicted goals of the home side.
    pub home_score: u8,
    /// Predicted goals of the away side.
    pub away_score: u8,
    /// Stake paid for the bet.
    pub amount: u128,
    /// Whether settlement has processed the bet's share.
    pub claimed: bool,
}

/// A value transfer that settlement asks the host to carry out.
#[derive(Clone, Copy, Debug, PartialEq, Eq)]
pub struct Transfer {
    pub to: Address,
    pub amount: u128,
}

} // verus!
