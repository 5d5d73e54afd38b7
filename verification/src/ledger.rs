//! The executable ledger.

use crate::address::Address;
use crate::arith::{lemma_mul_div_le, mul_div};
use crate::laws::{law_bet_limit, law_distinct_outcomes};
use crate::lemmas::{
    all_unclaimed, lemma_bettor_le_totals, lemma_bettor_paid_scaled, lemma_paid_concat,
    lemma_paid_scaled, lemma_paid_single, lemma_stake_prefix, lemma_stake_push,
    lemma_total_stake_by_count, lemma_totals_claim_all, lemma_totals_prefix, lemma_totals_push,
    lemma_totals_update, lemma_unresolved_unclaimed, lemma_winner_le_winning_stake,
    lemma_winning_le_stake, lemma_winning_le_total, unclaimed,
};
use crate::model::{
    bet_count, bettor_payouts, claim, claim_all, distinct_outcomes, holds_outcome, paid, payouts,
    predicts, records, stake, total_stake, winning_stake, winning_total, Bettor, Ledger,
    MAX_BETS,
};
use crate::types::{Bet, Error, Transfer};
use vstd::prelude::*;

verus! {

/// One participant's record: who, and the bets placed so far.
struct Account {
    address: Address,
    bets: Vec<Bet>,
}

impl View for Account {
    type V = Bettor;

    closed spec fn view(&self) -> Bettor {
        Bettor { address: self.address, bets: self.bets@ }
    }
}

/// The betting ledger: configuration, pot, resolution record and the bets of
/// every participant.
///
/// Its view is the abstract [`Ledger`]; every operation is specified as a
/// step of that model.
pub struct LAPorra {
    owner: Address,
    contract_address: Address,
    deadline: u64,
    bet_price: u128,
    total_pot: u128,
    disbursed: Ghost<nat>,
    resolved: bool,
    winning_result: (u8, u8),
    accounts: Vec<Account>,
}

impl View for LAPorra {
    type V = Ledger;

    closed spec fn view(&self) -> Ledger {
        Ledger {
            owner: self.owner,
            contract_address: self.contract_address,
            deadline: self.deadline,
            bet_price: self.bet_price as nat,
            total_pot: self.total_pot as nat,
            disbursed: self.disbursed@,
            resolved: self.resolved,
            winning_result: self.winning_result,
            bettors: self.accounts@.map_values(|a: Account| a@),
        }
    }
}

/// Whether one of `bets` predicts `home`-`away`.
fn has_outcome(bets: &Vec<Bet>, home: u8, away: u8) -> (found: bool)
    ensures
        found == holds_outcome(bets@, home, away),
{
    let mut k: usize = 0;
    while k < bets.len()
        invariant
            k <= bets.len(),
            forall|j: int| 0 <= j < k ==> !predicts(#[trigger] bets@[j], home, away),
        decreases bets.len() - k,
    {
        if bets[k].home_score == home && bets[k].away_score == away {
            assert(predicts(bets@[k as int], home, away));
            return true;
        }
        k += 1;
    }
    false
}

/// What `bets` stake on `home`-`away` together.
fn winning_stake_of(bets: &Vec<Bet>, home: u8, away: u8) -> (sum: u128)
    requires
        stake(bets@) <= u128::MAX,
    ensures
        sum == winning_stake(bets@, home, away),
{
    let mut sum: u128 = 0;
    let mut k: usize = 0;
    while k < bets.len()
        invariant
            k <= bets.len(),
            stake(bets@) <= u128::MAX,
            sum == winning_stake(bets@.take(k as int), home, away),
        decreases bets.len() - k,
    {
        proof {
            lemma_stake_prefix(bets@, k + 1, home, away);
            lemma_winning_le_stake(bets@, home, away);
            assert(bets@.take(k + 1).drop_last() =~= bets@.take(k as int));
        }
        if bets[k].home_score == home && bets[k].away_score == away {
            sum = sum + bets[k].amount;
        }
        k += 1;
    }
    assert(bets@.take(k as int) =~= bets@);
    sum
}

/// Settles the bets of `who` on `home`-`away`: appends the transfer of every
/// share above zero to `transfers`, marks every matching bet claimed, and
/// returns what was paid.
fn settle_bets(
    bets: &mut Vec<Bet>,
    who: Address,
    home: u8,
    away: u8,
    pot: u128,
    total: u128,
    transfers: &mut Vec<Transfer>,
) -> (out: u128)
    requires
        total > 0,
        unclaimed(old(bets)@),
        winning_stake(old(bets)@, home, away) <= total,
    ensures
        final(bets)@ == claim(old(bets)@, home, away),
        final(transfers)@ == old(transfers)@ + bettor_payouts(
            who,
            old(bets)@,
            home,
            away,
            pot as nat,
            total as nat,
        ),
        out == paid(bettor_payouts(who, old(bets)@, home, away, pot as nat, total as nat)),
{
    let ghost before = bets@;
    let ghost sent = transfers@;
    let mut out: u128 = 0;
    let mut k: usize = 0;
    assert(transfers@ =~= sent + Seq::<Transfer>::empty());
    while k < bets.len()
        invariant
            total > 0,
            unclaimed(before),
            winning_stake(before, home, away) <= total,
            k <= bets.len(),
            bets.len() == before.len(),
            forall|j: int| 0 <= j < k ==> #[trigger] bets@[j] == claim(before, home, away)[j],
            forall|j: int| k <= j < bets.len() ==> #[trigger] bets@[j] == before[j],
            transfers@ == sent + bettor_payouts(
                who,
                before.take(k as int),
                home,
                away,
                pot as nat,
                total as nat,
            ),
            out == paid(
                bettor_payouts(who, before.take(k as int), home, away, pot as nat, total as nat),
            ),
        decreases bets.len() - k,
    {
        let bet = bets[k];
        let ghost earlier = bettor_payouts(
            who,
            before.take(k as int),
            home,
            away,
            pot as nat,
            total as nat,
        );
        proof {
            assert(before.take(k + 1).drop_last() =~= before.take(k as int));
            assert(before.take(k + 1).last() == bet);
            lemma_stake_prefix(before, k + 1, home, away);
            assert(unclaimed(before.take(k + 1)));
            lemma_bettor_paid_scaled(
                who,
                before.take(k + 1),
                home,
                away,
                pot as nat,
                total as nat,
            );
        }
        if bet.home_score == home && bet.away_score == away && !bet.claimed {
            proof {
                lemma_winner_le_winning_stake(before, k as int, home, away);
                lemma_mul_div_le(bet.amount as nat, pot as nat, total as nat);
            }
            let part: u128 = mul_div(bet.amount, pot, total);
            if part > 0 {
                transfers.push(Transfer { to: who, amount: part });
                proof {
                    let tr = Transfer { to: who, amount: part };
                    assert(transfers@ =~= sent + earlier.push(tr));
                    assert(earlier.push(tr).drop_last() =~= earlier);
                }
                out = out + part;
            }
            bets.set(k, Bet { claimed: true, ..bet });
        }
        k += 1;
    }
    proof {
        assert(before.take(k as int) =~= before);
        assert(bets@ =~= claim(before, home, away));
    }
    out
}

impl LAPorra {
    /// Creates the ledger for the authority `caller`: no bets, an empty pot,
    /// nothing resolved. A bet price of zero is rejected.
    pub fn init(
        caller: Address,
        contract_address: Address,
        deadline_timestamp: u64,
        bet_price: u128,
    ) -> (res: Result<LAPorra, Error>)
        ensures
            bet_price == 0 <==> res == Err::<LAPorra, Error>(Error::InvalidConfig),
            bet_price > 0 <==> res is Ok,
            res matches Ok(ledger) ==> {
                &&& ledger@ == Ledger::initial(
                    caller,
                    contract_address,
                    deadline_timestamp,
                    bet_price as nat,
                )
                &&& ledger@.wf()
            },
    {
        if bet_price == 0 {
            return Err(Error::InvalidConfig);
        }
        let ledger = LAPorra {
            owner: caller,
            contract_address,
            deadline: deadline_timestamp,
            bet_price,
            total_pot: 0,
            disbursed: Ghost(0),
            resolved: false,
            winning_result: (0, 0),
            accounts: Vec::new(),
        };
        assert(ledger@.bettors =~= Seq::<Bettor>::empty());
        Ok(ledger)
    }

    /// Rebuilds a ledger from what a host has stored of it: the configuration,
    /// the pot, the resolution record, the participants in the order of their
    /// first bet and, at the same places, their bets.
    ///
    /// Returns `None` exactly when the parts are not those of a well-formed
    /// ledger.
    #[verifier::loop_isolation(false)]
    pub fn restore(
        owner: Address,
        contract_address: Address,
        deadline: u64,
        bet_price: u128,
        total_pot: u128,
        resolved: bool,
        winning_result: (u8, u8),
        bettors: Vec<Address>,
        bets: Vec<Vec<Bet>>,
    ) -> (res: Option<LAPorra>)
        ensures
            res is Some <==> bettors.len() == bets.len() && Ledger::assembled(
                owner,
                contract_address,
                deadline,
                bet_price as nat,
                total_pot as nat,
                resolved,
                winning_result,
                bettors@,
                bets@.map_values(|v: Vec<Bet>| v@),
            ).wf(),
            res matches Some(ledger) ==> ledger@ == Ledger::assembled(
                owner,
                contract_address,
                deadline,
                bet_price as nat,
                total_pot as nat,
                resolved,
                winning_result,
                bettors@,
                bets@.map_values(|v: Vec<Bet>| v@),
            ),
    {
        if bettors.len() != bets.len() {
            return None;
        }
        if bet_price == 0 {
            return None;
        }
        let ghost target = Ledger::assembled(
            owner,
            contract_address,
            deadline,
            bet_price as nat,
            total_pot as nat,
            resolved,
            winning_result,
            bettors@,
            bets@.map_values(|v: Vec<Bet>| v@),
        );
        let mut accounts: Vec<Account> = Vec::new();
        let mut count: u128 = 0;
        let mut i: usize = 0;
        while i < bettors.len()
            invariant
                i <= bettors.len(),
                accounts@.map_values(|a: Account| a@) == target.bettors.take(i as int),
                forall|j: int| 0 <= j < i ==> target.bettor_wf(#[trigger] target.bettors[j]),
                forall|a: int, b: int|
                    0 <= a < b < i ==> (#[trigger] target.bettors[a]).address != (
                    #[trigger] target.bettors[b]).address,
                count == bet_count(target.bettors.take(i as int)),
                count <= MAX_BETS * i,
            decreases bettors.len() - i,
        {
            let who = bettors[i];
            let list = &bets[i];
            assert(target.bettors[i as int] == Bettor { address: who, bets: list@ });
            let mut j: usize = 0;
            while j < i
                invariant
                    j <= i,
                    forall|a: int| 0 <= a < j ==> (#[trigger] target.bettors[a]).address != who,
                decreases i - j,
            {
                if bettors[j] == who {
                    assert(target.bettors[j as int].address == target.bettors[i as int].address);
                    return None;
                }
                assert(target.bettors[j as int].address != who);
                j += 1;
            }
            if list.len() == 0 || list.len() > MAX_BETS {
                assert(!target.bettor_wf(target.bettors[i as int]));
                return None;
            }
            let mut copy: Vec<Bet> = Vec::new();
            let mut k: usize = 0;
            while k < list.len()
                invariant
                    k <= list.len(),
                    copy@ == list@.take(k as int),
                    distinct_outcomes(list@.take(k as int)),
                    forall|m: int|
                        0 <= m < k ==> {
                            &&& (#[trigger] list@[m]).amount == bet_price
                            &&& list@[m].claimed ==> resolved && predicts(
                                list@[m],
                                winning_result.0,
                                winning_result.1,
                            )
                        },
                decreases list.len() - k,
            {
                let bet = list[k];
                let claimable = resolved && bet.home_score == winning_result.0 && bet.away_score
                    == winning_result.1;
                if bet.amount != bet_price || (bet.claimed && !claimable) {
                    assert(!target.bettor_wf(target.bettors[i as int])) by {
                        assert(target.bettors[i as int].bets[k as int] == bet);
                    }
                    return None;
                }
                if has_outcome(&copy, bet.home_score, bet.away_score) {
                    assert(!target.bettor_wf(target.bettors[i as int])) by {
                        let m = choose|m: int|
                            0 <= m < k && predicts(
                                #[trigger] copy@[m],
                                bet.home_score,
                                bet.away_score,
                            );
                        assert(predicts(list@[m], list@[k as int].home_score, list@[k as int].away_score));
                    }
                    return None;
                }
                copy.push(bet);
                proof {
                    assert(list@.take(k + 1) =~= list@.take(k as int).push(bet));
                    assert forall|a: int, b: int| 0 <= a < b < k + 1 implies !predicts(
                        #[trigger] list@.take(k + 1)[a],
                        (#[trigger] list@.take(k + 1)[b]).home_score,
                        list@.take(k + 1)[b].away_score,
                    ) by {
                        if b < k {
                            assert(!predicts(
                                list@.take(k as int)[a],
                                list@.take(k as int)[b].home_score,
                                list@.take(k as int)[b].away_score,
                            ));
                        } else {
                            assert(!predicts(copy@.drop_last()[a], bet.home_score, bet.away_score));
                        }
                    }
                }
                k += 1;
            }
            proof {
                assert(list@.take(k as int) =~= list@);
                assert(target.bettor_wf(target.bettors[i as int]));
                assert(target.bettors.take(i + 1).drop_last() =~= target.bettors.take(i as int));
                assert(MAX_BETS * i + MAX_BETS == MAX_BETS * (i + 1)) by (nonlinear_arith);
            }
            accounts.push(Account { address: who, bets: copy });
            assert(accounts@.map_values(|a: Account| a@) =~= target.bettors.take(i + 1));
            count = count + list.len() as u128;
            i += 1;
        }
        proof {
            assert(target.bettors.take(i as int) =~= target.bettors);
            assert forall|a: int, k: int|
                0 <= a < target.bettors.len() && 0 <= k < target.bettors[a].bets.len() implies (
            #[trigger] target.bettors[a].bets[k]).amount == target.bet_price by {
                assert(target.bettor_wf(target.bettors[a]));
            }
            lemma_total_stake_by_count(target.bettors, target.bet_price);
        }
        let balanced = match count.checked_mul(bet_price) {
            Some(staked) => total_pot == staked || (resolved && total_pot < staked),
            None => resolved,
        };
        if !balanced {
            return None;
        }
        let ledger = LAPorra {
            owner,
            contract_address,
            deadline,
            bet_price,
            total_pot,
            disbursed: Ghost((total_stake(target.bettors) - total_pot) as nat),
            resolved,
            winning_result,
            accounts,
        };
        assert(ledger@.bettors =~= target.bettors);
        Some(ledger)
    }

    /// Keeps the ledger as it is across a change of the hosting code.
    pub fn upgrade(&mut self)
        ensures
            *final(self) == *old(self),
    {
    }

    /// The authority.
    pub fn owner(&self) -> (owner: Address)
        ensures
            owner == self@.owner,
    {
        self.owner
    }

    /// The time from which bets are refused and settlement is possible.
    pub fn deadline(&self) -> (deadline: u64)
        ensures
            deadline == self@.deadline,
    {
        self.deadline
    }

    /// What the ledger holds for distribution.
    pub fn total_pot(&self) -> (pot: u128)
        ensures
            pot == self@.total_pot,
    {
        self.total_pot
    }

    /// What every bet costs.
    pub fn bet_price(&self) -> (price: u128)
        ensures
            price == self@.bet_price,
    {
        self.bet_price
    }

    /// The declared outcome; `(0, 0)` until settlement.
    pub fn winning_result(&self) -> (result: (u8, u8))
        ensures
            result == self@.winning_result,
    {
        self.winning_result
    }

    /// Whether settlement has taken place.
    pub fn resolved(&self) -> (resolved: bool)
        ensures
            resolved == self@.resolved,
    {
        self.resolved
    }

    /// The ledger's own identity.
    pub fn get_contract_address(&self) -> (address: Address)
        ensures
            address == self@.contract_address,
    {
        self.contract_address
    }

    /// Everyone who ever bet, in the order of their first bet.
    pub fn bettors(&self) -> (bettors: Vec<Address>)
        ensures
            bettors@ == self@.bettors.map_values(|b: Bettor| b.address),
    {
        let mut bettors: Vec<Address> = Vec::new();
        let mut i: usize = 0;
        while i < self.accounts.len()
            invariant
                i <= self.accounts.len(),
                bettors@ == self@.bettors.take(i as int).map_values(|b: Bettor| b.address),
            decreases self.accounts.len() - i,
        {
            bettors.push(self.accounts[i].address);
            assert(self@.bettors.take(i + 1).map_values(|b: Bettor| b.address) =~= self@.bettors.take(
                i as int,
            ).map_values(|b: Bettor| b.address).push(self@.bettors[i as int].address));
            i += 1;
        }
        assert(self@.bettors.take(i as int) =~= self@.bettors);
        bettors
    }

    /// The bets of `addr`, oldest first; none for somebody who never bet.
    pub fn get_bets(&self, addr: Address) -> (bets: Vec<Bet>)
        requires
            self@.wf(),
        ensures
            bets@ == self@.bets_of(addr),
            bets@.len() <= MAX_BETS,
            distinct_outcomes(bets@),
    {
        proof {
            law_bet_limit(self@, addr);
            law_distinct_outcomes(self@, addr);
        }
        let mut bets: Vec<Bet> = Vec::new();
        if let Some(i) = self.find(addr) {
            let stored = &self.accounts[i].bets;
            assert(stored@ == self@.bettors[i as int].bets);
            let mut k: usize = 0;
            while k < stored.len()
                invariant
                    k <= stored.len(),
                    bets@ == stored@.take(k as int),
                decreases stored.len() - k,
            {
                bets.push(stored[k]);
                assert(stored@.take(k + 1) =~= stored@.take(k as int).push(stored@[k as int]));
                k += 1;
            }
            assert(stored@.take(k as int) =~= stored@);
        }
        bets
    }

    /// Whether the pot can take one more bet within 128 bits.
    pub fn has_room(&self) -> (room: bool)
        ensures
            room == self@.has_room(),
    {
        self.total_pot <= u128::MAX - self.bet_price
    }

    /// Records a bet of `caller` on `home_score`-`away_score`, paid with
    /// `payment`, at time `now`.
    ///
    /// The bet is refused after the deadline, for a payment other than the bet
    /// price, for a participant who already holds the maximum number of bets,
    /// and for an outcome the participant has already bet on; the first of
    /// these that applies is reported and nothing changes. An accepted bet
    /// adds `payment` to the pot, so the pot must have room for one more bet
    /// price within 128 bits (see [`LAPorra::has_room`]).
    pub fn place_bet(
        &mut self,
        caller: Address,
        now: u64,
        home_score: u8,
        away_score: u8,
        payment: u128,
    ) -> (res: Result<(), Error>)
        requires
            old(self)@.wf(),
            old(self)@.has_room(),
        ensures
            final(self)@.wf(),
            match res {
                Ok(()) => {
                    &&& old(self)@.bet_rejection(caller, now, home_score, away_score, payment)
                        is None
                    &&& final(self)@ == old(self)@.with_bet(
                        caller,
                        home_score,
                        away_score,
                        payment,
                    )
                },
                Err(e) => {
                    &&& old(self)@.bet_rejection(caller, now, home_score, away_score, payment)
                        == Some(e)
                    &&& *final(self) == *old(self)
                },
            },
    {
        if now >= self.deadline {
            return Err(Error::BettingClosed);
        }
        if payment == 0 || payment != self.bet_price {
            return Err(Error::InvalidPayment);
        }
        let bet = Bet { home_score, away_score, amount: payment, claimed: false };
        let ghost before = self@;
        match self.find(caller) {
            Some(i) => {
                if self.accounts[i].bets.len() >= MAX_BETS {
                    return Err(Error::BetLimitExceeded);
                }
                if has_outcome(&self.accounts[i].bets, home_score, away_score) {
                    return Err(Error::DuplicateOutcome);
                }
                self.accounts[i].bets.push(bet);
                proof {
                    let record = Bettor { address: caller, bets: before.bets_of(caller).push(bet) };
                    assert(self@.bettors =~= before.bettors.update(i as int, record));
                    lemma_totals_update(before.bettors, i as int, record);
                    lemma_stake_push(before.bets_of(caller), bet);
                }
            },
            None => {
                let mut bets: Vec<Bet> = Vec::new();
                bets.push(bet);
                self.accounts.push(Account { address: caller, bets });
                proof {
                    let record = Bettor { address: caller, bets: seq![bet] };
                    assert(bets@ =~= seq![bet]);
                    assert(self@.bettors =~= before.bettors.push(record));
                    lemma_totals_push(before.bettors, record);
                    lemma_stake_push(Seq::<Bet>::empty(), bet);
                    assert(Seq::<Bet>::empty().push(bet) =~= seq![bet]);
                }
            },
        }
        self.total_pot = self.total_pot + payment;
        Ok(())
    }

    /// Settles the ledger on the outcome `home_score`-`away_score`, as asked
    /// for by `caller` at time `now`, and returns the transfers to carry out,
    /// in order.
    ///
    /// Only the authority may settle, only once, and only from the deadline
    /// on; the first of these that fails is reported and nothing changes.
    /// Where some stake is on the outcome, every matching bet receives
    /// `amount * pot / total`, rounded down, and is marked claimed; what the
    /// rounding keeps back stays in the pot. Where none is, the whole pot
    /// goes to the authority.
    pub fn resolve_bets(&mut self, caller: Address, now: u64, home_score: u8, away_score: u8) -> (res:
        Result<Vec<Transfer>, Error>)
        requires
            old(self)@.wf(),
        ensures
            final(self)@.wf(),
            match res {
                Ok(transfers) => {
                    &&& old(self)@.settlement_rejection(caller, now) is None
                    &&& transfers@ == old(self)@.settlement_transfers(home_score, away_score)
                    &&& final(self)@ == old(self)@.settled(home_score, away_score)
                },
                Err(e) => {
                    &&& old(self)@.settlement_rejection(caller, now) == Some(e)
                    &&& *final(self) == *old(self)
                },
            },
    {
        if caller != self.owner {
            return Err(Error::Unauthorized);
        }
        if self.resolved {
            return Err(Error::AlreadyResolved);
        }
        if now < self.deadline {
            return Err(Error::TooEarlyToResolve);
        }
        let ghost before = self@;
        let total: u128 = self.winning_total_of(home_score, away_score);
        let pot: u128 = self.total_pot;
        let mut transfers: Vec<Transfer> = Vec::new();
        let mut out: u128 = 0;
        if total > 0 {
            proof {
                lemma_unresolved_unclaimed(before);
            }
            let mut i: usize = 0;
            while i < self.accounts.len()
                invariant
                    before.wf(),
                    !before.resolved,
                    all_unclaimed(before.bettors),
                    total > 0,
                    total == winning_total(before.bettors, home_score, away_score),
                    pot == before.total_pot,
                    i <= self.accounts.len(),
                    self.accounts.len() == before.bettors.len(),
                    forall|j: int|
                        0 <= j < i ==> (#[trigger] self.accounts[j])@ == claim_all(
                            before.bettors,
                            home_score,
                            away_score,
                        )[j],
                    forall|j: int|
                        i <= j < self.accounts.len() ==> (#[trigger] self.accounts[j])@
                            == before.bettors[j],
                    transfers@ == payouts(
                        before.bettors.take(i as int),
                        home_score,
                        away_score,
                        pot as nat,
                        total as nat,
                    ),
                    out == paid(transfers@),
                    self.owner == before.owner,
                    self.contract_address == before.contract_address,
                    self.deadline == before.deadline,
                    self.bet_price == before.bet_price,
                    self.total_pot == before.total_pot,
                    self.disbursed@ == before.disbursed,
                    self.resolved == before.resolved,
                    self.winning_result == before.winning_result,
                decreases self.accounts.len() - i,
            {
                let who = self.accounts[i].address;
                let ghost sent = transfers@;
                proof {
                    let part = before.bettors.take(i + 1);
                    assert(part.drop_last() =~= before.bettors.take(i as int));
                    assert(part.last() == before.bettors[i as int]);
                    lemma_bettor_le_totals(before.bettors, i as int, home_score, away_score);
                    lemma_totals_prefix(before.bettors, i + 1, home_score, away_score);
                    assert(all_unclaimed(part));
                    lemma_paid_scaled(part, home_score, away_score, pot as nat, total as nat);
                    lemma_paid_concat(
                        sent,
                        bettor_payouts(
                            who,
                            before.bettors[i as int].bets,
                            home_score,
                            away_score,
                            pot as nat,
                            total as nat,
                        ),
                    );
                }
                let more: u128 = settle_bets(
                    &mut self.accounts[i].bets,
                    who,
                    home_score,
                    away_score,
                    pot,
                    total,
                    &mut transfers,
                );
                out = out + more;
                i += 1;
            }
            proof {
                assert(before.bettors.take(i as int) =~= before.bettors);
                assert(self@.bettors =~= claim_all(before.bettors, home_score, away_score));
                lemma_totals_claim_all(before.bettors, home_score, away_score);
                lemma_paid_scaled(
                    before.bettors,
                    home_score,
                    away_score,
                    pot as nat,
                    total as nat,
                );
            }
        } else if pot > 0 {
            transfers.push(Transfer { to: self.owner, amount: pot });
            out = pot;
            proof {
                let tr = Transfer { to: self.owner, amount: pot };
                assert(transfers@ =~= seq![tr]);
                lemma_paid_single(tr, self.owner);
            }
        }
        assert(transfers@ == before.settlement_transfers(home_score, away_score));
        assert(out == paid(transfers@));
        assert(out <= pot);
        self.total_pot = pot - out;
        self.disbursed = Ghost(out as nat);
        self.resolved = true;
        self.winning_result = (home_score, away_score);
        proof {
            assert(self@.bettors =~= before.settled(home_score, away_score).bettors);
        }
        Ok(transfers)
    }

    /// Where the record of `who` stands, if there is one.
    fn find(&self, who: Address) -> (found: Option<usize>)
        requires
            self@.wf(),
        ensures
            match found {
                Some(i) => {
                    &&& i < self.accounts.len()
                    &&& self.accounts[i as int].address == who
                    &&& self@.registered(who)
                    &&& self@.index_of(who) == i
                },
                None => !self@.registered(who),
            },
    {
        let mut i: usize = 0;
        while i < self.accounts.len()
            invariant
                self@.wf(),
                i <= self.accounts.len(),
                forall|j: int| 0 <= j < i ==> (#[trigger] self@.bettors[j]).address != who,
            decreases self.accounts.len() - i,
        {
            if self.accounts[i].address == who {
                proof {
                    assert(self@.bettors[i as int].address == who);
                    let chosen = self@.index_of(who);
                    assert(self@.bettors[chosen].address == who);
                    assert(chosen == i);
                }
                return Some(i);
            }
            assert(self@.bettors[i as int].address != who);
            i += 1;
        }
        None
    }

    /// What all bets stake on `home`-`away` together.
    fn winning_total_of(&self, home: u8, away: u8) -> (total: u128)
        requires
            total_stake(self@.bettors) <= u128::MAX,
        ensures
            total == winning_total(self@.bettors, home, away),
    {
        let ghost bettors = self@.bettors;
        let mut total: u128 = 0;
        let mut i: usize = 0;
        while i < self.accounts.len()
            invariant
                bettors == self@.bettors,
                total_stake(bettors) <= u128::MAX,
                i <= self.accounts.len(),
                total == winning_total(bettors.take(i as int), home, away),
            decreases self.accounts.len() - i,
        {
            proof {
                assert(bettors[i as int].bets == self.accounts[i as int].bets@);
                lemma_bettor_le_totals(bettors, i as int, home, away);
                lemma_totals_prefix(bettors, i + 1, home, away);
                lemma_winning_le_total(bettors, home, away);
                assert(bettors.take(i + 1).drop_last() =~= bettors.take(i as int));
            }
            total = total + winning_stake_of(&self.accounts[i].bets, home, away);
            i += 1;
        }
        assert(bettors.take(i as int) =~= bettors);
        total
    }
}

} // verus!
