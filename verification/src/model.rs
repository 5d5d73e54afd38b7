//! The ledger as a mathematical state machine.
//!
//! A [`Ledger`] is the abstract state; betting and settlement are functions
//! from one state to the next. The executable ledger is specified against
//! these.

use crate::address::Address;
use crate::arith::mul_div_floor;
use crate::types::{Bet, Error, Transfer};
use vstd::prelude::*;

verus! {

/// Most bets one participant may hold.
pub const MAX_BETS: usize = 10;

/// Whether `bet` predicts the outcome `home`-`away`.
pub open spec fn predicts(bet: Bet, home: u8, away: u8) -> bool {
    bet.home_score == home && bet.away_score == away
}

/// Whether some bet of `bets` predicts `home`-`away`.
pub open spec fn holds_outcome(bets: Seq<Bet>, home: u8, away: u8) -> bool {
    exists|k: int| 0 <= k < bets.len() && predicts(#[trigger] bets[k], home, away)
}

/// No two bets of `bets` predict the same outcome.
pub open spec fn distinct_outcomes(bets: Seq<Bet>) -> bool {
    forall|j: int, k: int|
        0 <= j < k < bets.len() ==> !predicts(
            #[trigger] bets[j],
            (#[trigger] bets[k]).home_score,
            bets[k].away_score,
        )
}

/// Sum of the stakes of `bets`.
pub open spec fn stake(bets: Seq<Bet>) -> nat
    decreases bets.len(),
{
    if bets.len() == 0 {
        0
    } else {
        stake(bets.drop_last()) + bets.last().amount as nat
    }
}

/// Sum of the stakes of those bets of `bets` that predict `home`-`away`.
pub open spec fn winning_stake(bets: Seq<Bet>, home: u8, away: u8) -> nat
    decreases bets.len(),
{
    if bets.len() == 0 {
        0
    } else {
        winning_stake(bets.drop_last(), home, away) + if predicts(bets.last(), home, away) {
            bets.last().amount as nat
        } else {
            0
        }
    }
}

/// What a bet of `amount` receives from `pot` when the winning bets staked
/// `total` together: its proportional part, rounded down.
pub open spec fn share(amount: nat, pot: nat, total: nat) -> nat {
    mul_div_floor(amount, pot, total)
}

/// Whether settlement has a share to process for `bet`.
pub open spec fn payable(bet: Bet, home: u8, away: u8) -> bool {
    predicts(bet, home, away) && !bet.claimed
}

/// The transfers that settlement makes to `who` for `bets`, in the order of
/// the bets. A share of zero is processed but not transferred.
pub open spec fn bettor_payouts(
    who: Address,
    bets: Seq<Bet>,
    home: u8,
    away: u8,
    pot: nat,
    total: nat,
) -> Seq<Transfer>
    decreases bets.len(),
{
    if bets.len() == 0 {
        Seq::empty()
    } else {
        let earlier = bettor_payouts(who, bets.drop_last(), home, away, pot, total);
        let part = share(bets.last().amount as nat, pot, total);
        if payable(bets.last(), home, away) && part > 0 {
            earlier.push(Transfer { to: who, amount: part as u128 })
        } else {
            earlier
        }
    }
}

/// What the floor division keeps back from the bets of one participant: the
/// sum, over the bets that settlement processes, of the remainder of
/// `amount * pot` by `total`.
pub open spec fn bettor_dust(bets: Seq<Bet>, home: u8, away: u8, pot: nat, total: nat) -> nat
    decreases bets.len(),
{
    if bets.len() == 0 {
        0
    } else {
        bettor_dust(bets.drop_last(), home, away, pot, total) + if payable(
            bets.last(),
            home,
            away,
        ) {
            (bets.last().amount as nat * pot) % total
        } else {
            0
        }
    }
}

/// `bets` after settlement on `home`-`away`: every matching bet is claimed.
pub open spec fn claim(bets: Seq<Bet>, home: u8, away: u8) -> Seq<Bet> {
    bets.map_values(
        |b: Bet|
            if predicts(b, home, away) {
                Bet { claimed: true, ..b }
            } else {
                b
            },
    )
}

/// Sum of the amounts of `transfers`.
pub open spec fn paid(transfers: Seq<Transfer>) -> nat
    decreases transfers.len(),
{
    if transfers.len() == 0 {
        0
    } else {
        paid(transfers.drop_last()) + transfers.last().amount as nat
    }
}

/// Sum of the amounts that `transfers` send to `who`.
pub open spec fn received(transfers: Seq<Transfer>, who: Address) -> nat
    decreases transfers.len(),
{
    if transfers.len() == 0 {
        0
    } else {
        received(transfers.drop_last(), who) + if transfers.last().to == who {
            transfers.last().amount as nat
        } else {
            0
        }
    }
}

/// A participant with the bets placed so far, oldest first.
pub struct Bettor {
    pub address: Address,
    pub bets: Seq<Bet>,
}

/// Sum of all stakes of `bettors`.
pub open spec fn total_stake(bettors: Seq<Bettor>) -> nat
    decreases bettors.len(),
{
    if bettors.len() == 0 {
        0
    } else {
        total_stake(bettors.drop_last()) + stake(bettors.last().bets)
    }
}

/// Number of bets that `bettors` hold together.
pub open spec fn bet_count(bettors: Seq<Bettor>) -> nat
    decreases bettors.len(),
{
    if bettors.len() == 0 {
        0
    } else {
        bet_count(bettors.drop_last()) + bettors.last().bets.len()
    }
}

/// Sum of the stakes of all bets of `bettors` that predict `home`-`away`.
pub open spec fn winning_total(bettors: Seq<Bettor>, home: u8, away: u8) -> nat
    decreases bettors.len(),
{
    if bettors.len() == 0 {
        0
    } else {
        winning_total(bettors.drop_last(), home, away) + winning_stake(
            bettors.last().bets,
            home,
            away,
        )
    }
}

/// The transfers of a winning settlement: participants in the order in which
/// they first bet, each one's bets in the order in which they were placed.
pub open spec fn payouts(bettors: Seq<Bettor>, home: u8, away: u8, pot: nat, total: nat) -> Seq<
    Transfer,
>
    decreases bettors.len(),
{
    if bettors.len() == 0 {
        Seq::empty()
    } else {
        payouts(bettors.drop_last(), home, away, pot, total) + bettor_payouts(
            bettors.last().address,
            bettors.last().bets,
            home,
            away,
            pot,
            total,
        )
    }
}

/// What the floor division keeps back in a winning settlement, scaled by
/// `total`: the sum of the remainders of all processed bets.
pub open spec fn dust(bettors: Seq<Bettor>, home: u8, away: u8, pot: nat, total: nat) -> nat
    decreases bettors.len(),
{
    if bettors.len() == 0 {
        0
    } else {
        dust(bettors.drop_last(), home, away, pot, total) + bettor_dust(
            bettors.last().bets,
            home,
            away,
            pot,
            total,
        )
    }
}

/// `bettors` after settlement on `home`-`away`.
pub open spec fn claim_all(bettors: Seq<Bettor>, home: u8, away: u8) -> Seq<Bettor> {
    bettors.map_values(
        |b: Bettor| Bettor { address: b.address, bets: claim(b.bets, home, away) },
    )
}

/// The records of `bettors`, each with the bets at the same place in `bets`.
pub open spec fn records(bettors: Seq<Address>, bets: Seq<Seq<Bet>>) -> Seq<Bettor> {
    Seq::new(bettors.len(), |i: int| Bettor { address: bettors[i], bets: bets[i] })
}

/// Abstract state of the ledger.
pub struct Ledger {
    /// The authority: who created the ledger and alone may settle it.
    pub owner: Address,
    /// The ledger's own identity.
    pub contract_address: Address,
    /// Bets are accepted strictly before this time, settlement from it on.
    pub deadline: u64,
    /// What every bet costs.
    pub bet_price: nat,
    /// What the ledger holds for distribution.
    pub total_pot: nat,
    /// What settlement has paid out.
    pub disbursed: nat,
    /// Whether settlement has taken place.
    pub resolved: bool,
    /// The declared outcome; meaningful once `resolved`.
    pub winning_result: (u8, u8),
    /// Everyone who ever bet, in the order of their first bet.
    pub bettors: Seq<Bettor>,
}

impl Ledger {
    /// The state right after creation by `owner`.
    pub open spec fn initial(
        owner: Address,
        contract_address: Address,
        deadline: u64,
        bet_price: nat,
    ) -> Ledger {
        Ledger {
            owner,
            contract_address,
            deadline,
            bet_price,
            total_pot: 0,
            disbursed: 0,
            resolved: false,
            winning_result: (0, 0),
            bettors: Seq::empty(),
        }
    }

    /// The state with the given configuration, pot, resolution record and
    /// bets. What settlement paid out is what the pot lacks of the total stake.
    pub open spec fn assembled(
        owner: Address,
        contract_address: Address,
        deadline: u64,
        bet_price: nat,
        total_pot: nat,
        resolved: bool,
        winning_result: (u8, u8),
        bettors: Seq<Address>,
        bets: Seq<Seq<Bet>>,
    ) -> Ledger {
        Ledger {
            owner,
            contract_address,
            deadline,
            bet_price,
            total_pot,
            disbursed: (total_stake(records(bettors, bets)) - total_pot) as nat,
            resolved,
            winning_result,
            bettors: records(bettors, bets),
        }
    }

    /// Whether `who` has ever placed a bet.
    pub open spec fn registered(self, who: Address) -> bool {
        exists|i: int| 0 <= i < self.bettors.len() && (#[trigger] self.bettors[i]).address == who
    }

    /// Where `who` stands among the bettors, if registered.
    pub open spec fn index_of(self, who: Address) -> int {
        choose|i: int| 0 <= i < self.bettors.len() && (#[trigger] self.bettors[i]).address == who
    }

    /// The bets of `who`, oldest first; none for somebody who never bet.
    pub open spec fn bets_of(self, who: Address) -> Seq<Bet> {
        if self.registered(who) {
            self.bettors[self.index_of(who)].bets
        } else {
            Seq::empty()
        }
    }

    /// What holds of one participant's record in every reachable state.
    pub open spec fn bettor_wf(self, bettor: Bettor) -> bool {
        &&& 1 <= bettor.bets.len() <= MAX_BETS
        &&& distinct_outcomes(bettor.bets)
        &&& forall|k: int|
            0 <= k < bettor.bets.len() ==> {
                &&& (#[trigger] bettor.bets[k]).amount == self.bet_price
                &&& bettor.bets[k].claimed ==> self.resolved && predicts(
                    bettor.bets[k],
                    self.winning_result.0,
                    self.winning_result.1,
                )
            }
    }

    /// What holds of every reachable state.
    pub open spec fn wf(self) -> bool {
        &&& self.bet_price > 0
        &&& self.total_pot <= u128::MAX
        &&& self.total_pot + self.disbursed == total_stake(self.bettors)
        &&& !self.resolved ==> self.disbursed == 0
        &&& forall|i: int, j: int|
            0 <= i < j < self.bettors.len() ==> (#[trigger] self.bettors[i]).address != (
            #[trigger] self.bettors[j]).address
        &&& forall|i: int| 0 <= i < self.bettors.len() ==> self.bettor_wf(#[trigger] self.bettors[i])
    }

    /// Whether the pot can take one more bet within 128 bits.
    pub open spec fn has_room(self) -> bool {
        self.total_pot + self.bet_price <= u128::MAX
    }

    /// Why a bet of `who` at time `now` is turned down, if it is.
    pub open spec fn bet_rejection(
        self,
        who: Address,
        now: u64,
        home: u8,
        away: u8,
        payment: u128,
    ) -> Option<Error> {
        if now >= self.deadline {
            Some(Error::BettingClosed)
        } else if payment == 0 || payment != self.bet_price {
            Some(Error::InvalidPayment)
        } else if self.bets_of(who).len() >= MAX_BETS {
            Some(Error::BetLimitExceeded)
        } else if holds_outcome(self.bets_of(who), home, away) {
            Some(Error::DuplicateOutcome)
        } else {
            None
        }
    }

    /// The state after `who` has bet `payment` on `home`-`away`.
    pub open spec fn with_bet(self, who: Address, home: u8, away: u8, payment: u128) -> Ledger {
        let bet = Bet { home_score: home, away_score: away, amount: payment, claimed: false };
        let bettors = if self.registered(who) {
            self.bettors.update(
                self.index_of(who),
                Bettor { address: who, bets: self.bets_of(who).push(bet) },
            )
        } else {
            self.bettors.push(Bettor { address: who, bets: seq![bet] })
        };
        Ledger { total_pot: self.total_pot + payment as nat, bettors, ..self }
    }

    /// Why settlement asked for by `caller` at time `now` is turned down, if
    /// it is.
    pub open spec fn settlement_rejection(self, caller: Address, now: u64) -> Option<Error> {
        if caller != self.owner {
            Some(Error::Unauthorized)
        } else if self.resolved {
            Some(Error::AlreadyResolved)
        } else if now < self.deadline {
            Some(Error::TooEarlyToResolve)
        } else {
            None
        }
    }

    /// The transfers of settlement on `home`-`away`: the shares of the winning
    /// bets, or the whole pot to the authority when no stake is on the outcome.
    pub open spec fn settlement_transfers(self, home: u8, away: u8) -> Seq<Transfer> {
        let total = winning_total(self.bettors, home, away);
        if total > 0 {
            payouts(self.bettors, home, away, self.total_pot, total)
        } else if self.total_pot > 0 {
            seq![Transfer { to: self.owner, amount: self.total_pot as u128 }]
        } else {
            Seq::empty()
        }
    }

    /// The state after settlement on `home`-`away`.
    pub open spec fn settled(self, home: u8, away: u8) -> Ledger {
        let out = paid(self.settlement_transfers(home, away));
        Ledger {
            total_pot: (self.total_pot - out) as nat,
            disbursed: self.disbursed + out,
            resolved: true,
            winning_result: (home, away),
            bettors: if winning_total(self.bettors, home, away) > 0 {
                claim_all(self.bettors, home, away)
            } else {
                self.bettors
            },
            ..self
        }
    }

    /// The state after `call`: the next state where the call is accepted, the
    /// same state where it is rejected.
    pub open spec fn after(self, call: Call) -> Ledger {
        match call {
            Call::PlaceBet { caller, now, home, away, payment } => {
                if self.bet_rejection(caller, now, home, away, payment) is None {
                    self.with_bet(caller, home, away, payment)
                } else {
                    self
                }
            },
            Call::ResolveBets { caller, now, home, away } => {
                if self.settlement_rejection(caller, now) is None {
                    self.settled(home, away)
                } else {
                    self
                }
            },
        }
    }
}

/// A call that may change the ledger, with everything it depends on.
pub enum Call {
    /// `caller` bets `payment` on `home`-`away` at time `now`.
    PlaceBet { caller: Address, now: u64, home: u8, away: u8, payment: u128 },
    /// `caller` declares the outcome `home`-`away` at time `now`.
    ResolveBets { caller: Address, now: u64, home: u8, away: u8 },
}

} // verus!
