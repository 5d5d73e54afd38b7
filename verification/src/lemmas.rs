//! Facts about the sums of the model that both the executable ledger and the
//! laws rest on.

use crate::address::Address;
use crate::arith::lemma_mul_div_le;
use crate::model::{
    bet_count, bettor_dust, bettor_payouts, claim, claim_all, distinct_outcomes, dust,
    holds_outcome, paid, payouts, predicts, received, share, stake, total_stake, winning_stake,
    winning_total, Bettor, Ledger,
};
use crate::types::{Bet, Transfer};
use vstd::arithmetic::div_mod::lemma_fundamental_div_mod;
use vstd::prelude::*;

verus! {

/// No bet of `bets` has been claimed.
pub open spec fn unclaimed(bets: Seq<Bet>) -> bool {
    forall|k: int| 0 <= k < bets.len() ==> !(#[trigger] bets[k]).claimed
}

/// No bet of any of `bettors` has been claimed.
pub open spec fn all_unclaimed(bettors: Seq<Bettor>) -> bool {
    forall|i: int| 0 <= i < bettors.len() ==> unclaimed((#[trigger] bettors[i]).bets)
}

/// Before settlement no bet is claimed.
pub proof fn lemma_unresolved_unclaimed(ledger: Ledger)
    requires
        ledger.wf(),
        !ledger.resolved,
    ensures
        all_unclaimed(ledger.bettors),
{
    assert forall|i: int| 0 <= i < ledger.bettors.len() implies unclaimed(
        (#[trigger] ledger.bettors[i]).bets,
    ) by {
        assert(ledger.bettor_wf(ledger.bettors[i]));
    }
}

/// One more bet adds its amount to the stake.
pub proof fn lemma_stake_push(bets: Seq<Bet>, bet: Bet)
    ensures
        stake(bets.push(bet)) == stake(bets) + bet.amount,
{
    assert(bets.push(bet).drop_last() =~= bets);
}

/// The winning stake is part of the stake.
pub proof fn lemma_winning_le_stake(bets: Seq<Bet>, home: u8, away: u8)
    ensures
        winning_stake(bets, home, away) <= stake(bets),
    decreases bets.len(),
{
    if bets.len() > 0 {
        lemma_winning_le_stake(bets.drop_last(), home, away);
    }
}

/// The first `k` bets stake no more than all, in total and on any outcome.
pub proof fn lemma_stake_prefix(bets: Seq<Bet>, k: int, home: u8, away: u8)
    requires
        0 <= k <= bets.len(),
    ensures
        stake(bets.take(k)) <= stake(bets),
        winning_stake(bets.take(k), home, away) <= winning_stake(bets, home, away),
    decreases bets.len(),
{
    if k < bets.len() {
        lemma_stake_prefix(bets.drop_last(), k, home, away);
        assert(bets.drop_last().take(k) =~= bets.take(k));
    } else {
        assert(bets.take(k) =~= bets);
    }
}

/// A bet on the outcome stakes no more than all bets on it together.
pub proof fn lemma_winner_le_winning_stake(bets: Seq<Bet>, k: int, home: u8, away: u8)
    requires
        0 <= k < bets.len(),
        predicts(bets[k], home, away),
    ensures
        bets[k].amount <= winning_stake(bets, home, away),
    decreases bets.len(),
{
    if k < bets.len() - 1 {
        lemma_winner_le_winning_stake(bets.drop_last(), k, home, away);
    }
}

/// Without a bet on the outcome nothing is staked on it.
pub proof fn lemma_no_winner_no_stake(bets: Seq<Bet>, home: u8, away: u8)
    requires
        !holds_outcome(bets, home, away),
    ensures
        winning_stake(bets, home, away) == 0,
    decreases bets.len(),
{
    if bets.len() > 0 {
        assert(!predicts(bets[bets.len() - 1], home, away));
        assert forall|k: int| 0 <= k < bets.drop_last().len() implies !predicts(
            #[trigger] bets.drop_last()[k],
            home,
            away,
        ) by {
            assert(!predicts(bets[k], home, away));
        }
        lemma_no_winner_no_stake(bets.drop_last(), home, away);
    }
}

/// Claiming changes no amount.
pub proof fn lemma_stake_claim(bets: Seq<Bet>, home: u8, away: u8)
    ensures
        stake(claim(bets, home, away)) == stake(bets),
    decreases bets.len(),
{
    if bets.len() > 0 {
        lemma_stake_claim(bets.drop_last(), home, away);
        assert(claim(bets, home, away).drop_last() =~= claim(bets.drop_last(), home, away));
    }
}

/// Of one participant's unclaimed bets: what is paid, scaled back by `total`,
/// and what the floor division kept make up the winning stake times the pot.
pub proof fn lemma_bettor_paid_scaled(
    who: Address,
    bets: Seq<Bet>,
    home: u8,
    away: u8,
    pot: nat,
    total: nat,
)
    requires
        total > 0,
        pot <= u128::MAX,
        unclaimed(bets),
        winning_stake(bets, home, away) <= total,
    ensures
        paid(bettor_payouts(who, bets, home, away, pot, total)) * total + bettor_dust(
            bets,
            home,
            away,
            pot,
            total,
        ) == winning_stake(bets, home, away) * pot,
        paid(bettor_payouts(who, bets, home, away, pot, total)) <= pot,
    decreases bets.len(),
{
    let out = paid(bettor_payouts(who, bets, home, away, pot, total)) as int;
    let kept = bettor_dust(bets, home, away, pot, total) as int;
    let won = winning_stake(bets, home, away) as int;
    let (p, t): (int, int) = (pot as int, total as int);
    if bets.len() > 0 {
        let rest = bets.drop_last();
        let last = bets.last();
        assert(unclaimed(rest)) by {
            assert forall|k: int| 0 <= k < rest.len() implies !(#[trigger] rest[k]).claimed by {
                assert(!bets[k].claimed);
            }
        }
        lemma_bettor_paid_scaled(who, rest, home, away, pot, total);
        let out0 = paid(bettor_payouts(who, rest, home, away, pot, total)) as int;
        let kept0 = bettor_dust(rest, home, away, pot, total) as int;
        let won0 = winning_stake(rest, home, away) as int;
        let a = last.amount as int;
        let part = share(last.amount as nat, pot, total) as int;
        if predicts(last, home, away) {
            assert(!bets[bets.len() - 1].claimed);
            lemma_mul_div_le(last.amount as nat, pot, total);
            lemma_fundamental_div_mod(a * p, t);
            assert(part == (a * p) / t);
            if part > 0 {
                let earlier = bettor_payouts(who, rest, home, away, pot, total);
                let tr = Transfer { to: who, amount: part as u128 };
                assert(earlier.push(tr).drop_last() =~= earlier);
            }
            assert(out == out0 + part);
            assert(kept == kept0 + (a * p) % t);
            assert(won == won0 + a);
            assert(out * t + kept == won * p) by (nonlinear_arith)
                requires
                    out == out0 + part,
                    kept == kept0 + (a * p) % t,
                    won == won0 + a,
                    out0 * t + kept0 == won0 * p,
                    a * p == t * part + (a * p) % t,
            ;
        }
    } else {
        assert(won * p == 0 && out * t == 0) by (nonlinear_arith)
            requires
                won == 0,
                out == 0,
        ;
    }
    assert(out <= p) by (nonlinear_arith)
        requires
            out * t + kept == won * p,
            0 <= kept,
            0 <= won <= t,
            0 < t,
            0 <= p,
            0 <= out,
    ;
}

/// A single transfer pays its amount, all of it to its receiver.
pub proof fn lemma_paid_single(transfer: Transfer, who: Address)
    ensures
        paid(seq![transfer]) == transfer.amount,
        received(seq![transfer], who) == if transfer.to == who {
            transfer.amount as nat
        } else {
            0
        },
{
    assert(seq![transfer].drop_last() =~= Seq::<Transfer>::empty());
    assert(paid(Seq::<Transfer>::empty()) == 0);
    assert(received(Seq::<Transfer>::empty(), who) == 0);
}

/// The sum over a concatenation is the sum of the sums.
pub proof fn lemma_paid_concat(front: Seq<Transfer>, back: Seq<Transfer>)
    ensures
        paid(front + back) == paid(front) + paid(back),
    decreases back.len(),
{
    if back.len() == 0 {
        assert(front + back =~= front);
    } else {
        lemma_paid_concat(front, back.drop_last());
        assert((front + back).drop_last() =~= front + back.drop_last());
    }
}

/// Replacing one participant's record changes the sums by the difference of
/// the two records.
pub proof fn lemma_totals_update(bettors: Seq<Bettor>, i: int, record: Bettor)
    requires
        0 <= i < bettors.len(),
    ensures
        total_stake(bettors.update(i, record)) + stake(bettors[i].bets) == total_stake(bettors)
            + stake(record.bets),
        bet_count(bettors.update(i, record)) + bettors[i].bets.len() == bet_count(bettors)
            + record.bets.len(),
    decreases bettors.len(),
{
    if i == bettors.len() - 1 {
        assert(bettors.update(i, record).drop_last() =~= bettors.drop_last());
    } else {
        lemma_totals_update(bettors.drop_last(), i, record);
        assert(bettors.update(i, record).drop_last() =~= bettors.drop_last().update(i, record));
    }
}

/// A new participant adds the new record's sums.
pub proof fn lemma_totals_push(bettors: Seq<Bettor>, record: Bettor)
    ensures
        total_stake(bettors.push(record)) == total_stake(bettors) + stake(record.bets),
        bet_count(bettors.push(record)) == bet_count(bettors) + record.bets.len(),
{
    assert(bettors.push(record).drop_last() =~= bettors);
}

/// The stake on an outcome is part of the total stake.
pub proof fn lemma_winning_le_total(bettors: Seq<Bettor>, home: u8, away: u8)
    ensures
        winning_total(bettors, home, away) <= total_stake(bettors),
    decreases bettors.len(),
{
    if bettors.len() > 0 {
        lemma_winning_le_total(bettors.drop_last(), home, away);
        lemma_winning_le_stake(bettors.last().bets, home, away);
    }
}

/// The first `k` participants stake no more than all, in total and on any
/// outcome.
pub proof fn lemma_totals_prefix(bettors: Seq<Bettor>, k: int, home: u8, away: u8)
    requires
        0 <= k <= bettors.len(),
    ensures
        total_stake(bettors.take(k)) <= total_stake(bettors),
        winning_total(bettors.take(k), home, away) <= winning_total(bettors, home, away),
    decreases bettors.len(),
{
    if k < bettors.len() {
        lemma_totals_prefix(bettors.drop_last(), k, home, away);
        assert(bettors.drop_last().take(k) =~= bettors.take(k));
    } else {
        assert(bettors.take(k) =~= bettors);
    }
}

/// One participant stakes no more than all, in total and on any outcome.
pub proof fn lemma_bettor_le_totals(bettors: Seq<Bettor>, i: int, home: u8, away: u8)
    requires
        0 <= i < bettors.len(),
    ensures
        stake(bettors[i].bets) <= total_stake(bettors),
        winning_stake(bettors[i].bets, home, away) <= winning_total(bettors, home, away),
    decreases bettors.len(),
{
    if i < bettors.len() - 1 {
        lemma_bettor_le_totals(bettors.drop_last(), i, home, away);
    }
}

/// Without a bet on the outcome anywhere nothing is staked on it.
pub proof fn lemma_no_winner_no_total(bettors: Seq<Bettor>, home: u8, away: u8)
    requires
        forall|i: int|
            0 <= i < bettors.len() ==> !holds_outcome((#[trigger] bettors[i]).bets, home, away),
    ensures
        winning_total(bettors, home, away) == 0,
    decreases bettors.len(),
{
    if bettors.len() > 0 {
        assert(!holds_outcome(bettors[bettors.len() - 1].bets, home, away));
        lemma_no_winner_no_stake(bettors.last().bets, home, away);
        assert forall|i: int| 0 <= i < bettors.drop_last().len() implies !holds_outcome(
            (#[trigger] bettors.drop_last()[i]).bets,
            home,
            away,
        ) by {
            assert(!holds_outcome(bettors[i].bets, home, away));
        }
        lemma_no_winner_no_total(bettors.drop_last(), home, away);
    }
}

/// Claiming changes neither the total stake nor the number of bets.
pub proof fn lemma_totals_claim_all(bettors: Seq<Bettor>, home: u8, away: u8)
    ensures
        total_stake(claim_all(bettors, home, away)) == total_stake(bettors),
        bet_count(claim_all(bettors, home, away)) == bet_count(bettors),
    decreases bettors.len(),
{
    if bettors.len() > 0 {
        lemma_totals_claim_all(bettors.drop_last(), home, away);
        lemma_stake_claim(bettors.last().bets, home, away);
        assert(claim_all(bettors, home, away).drop_last() =~= claim_all(
            bettors.drop_last(),
            home,
            away,
        ));
    }
}

/// Where every bet costs `price`, the total stake is the number of bets times
/// `price`.
pub proof fn lemma_total_stake_by_count(bettors: Seq<Bettor>, price: nat)
    requires
        forall|i: int, k: int|
            0 <= i < bettors.len() && 0 <= k < bettors[i].bets.len() ==> (
            #[trigger] bettors[i].bets[k]).amount == price,
    ensures
        total_stake(bettors) == bet_count(bettors) * price,
    decreases bettors.len(),
{
    if bettors.len() > 0 {
        lemma_total_stake_by_count(bettors.drop_last(), price);
        let bets = bettors.last().bets;
        assert forall|k: int| 0 <= k < bets.len() implies (#[trigger] bets[k]).amount == price by {
            assert(bettors[bettors.len() - 1].bets[k].amount == price);
        }
        lemma_stake_by_count(bets, price);
        assert((bet_count(bettors.drop_last()) + bets.len()) * price == bet_count(
            bettors.drop_last(),
        ) * price + bets.len() * price) by (nonlinear_arith);
    } else {
        assert(0 * price == 0) by (nonlinear_arith);
    }
}

/// Where every bet costs `price`, the stake is the number of bets times
/// `price`.
pub proof fn lemma_stake_by_count(bets: Seq<Bet>, price: nat)
    requires
        forall|k: int| 0 <= k < bets.len() ==> (#[trigger] bets[k]).amount == price,
    ensures
        stake(bets) == bets.len() * price,
    decreases bets.len(),
{
    if bets.len() > 0 {
        lemma_stake_by_count(bets.drop_last(), price);
        assert((bets.len() - 1) * price + price == bets.len() * price) by (nonlinear_arith);
    } else {
        assert(0 * price == 0) by (nonlinear_arith);
    }
}

/// Of unclaimed bets: what a winning settlement pays, scaled back by `total`,
/// and what the floor division kept make up the winning total times the pot.
pub proof fn lemma_paid_scaled(bettors: Seq<Bettor>, home: u8, away: u8, pot: nat, total: nat)
    requires
        total > 0,
        pot <= u128::MAX,
        all_unclaimed(bettors),
        winning_total(bettors, home, away) <= total,
    ensures
        paid(payouts(bettors, home, away, pot, total)) * total + dust(
            bettors,
            home,
            away,
            pot,
            total,
        ) == winning_total(bettors, home, away) * pot,
        paid(payouts(bettors, home, away, pot, total)) <= pot,
    decreases bettors.len(),
{
    let out = paid(payouts(bettors, home, away, pot, total)) as int;
    let kept = dust(bettors, home, away, pot, total) as int;
    let won = winning_total(bettors, home, away) as int;
    let (p, t): (int, int) = (pot as int, total as int);
    if bettors.len() > 0 {
        let rest = bettors.drop_last();
        let last = bettors.last();
        assert(all_unclaimed(rest)) by {
            assert forall|i: int| 0 <= i < rest.len() implies unclaimed(
                (#[trigger] rest[i]).bets,
            ) by {
                assert(unclaimed(bettors[i].bets));
            }
        }
        assert(unclaimed(bettors[bettors.len() - 1].bets));
        lemma_paid_scaled(rest, home, away, pot, total);
        lemma_bettor_paid_scaled(last.address, last.bets, home, away, pot, total);
        lemma_paid_concat(
            payouts(rest, home, away, pot, total),
            bettor_payouts(last.address, last.bets, home, away, pot, total),
        );
        let out0 = paid(payouts(rest, home, away, pot, total)) as int;
        let out1 = paid(bettor_payouts(last.address, last.bets, home, away, pot, total)) as int;
        let kept0 = dust(rest, home, away, pot, total) as int;
        let kept1 = bettor_dust(last.bets, home, away, pot, total) as int;
        let won0 = winning_total(rest, home, away) as int;
        let won1 = winning_stake(last.bets, home, away) as int;
        assert(out * t + kept == won * p) by (nonlinear_arith)
            requires
                out == out0 + out1,
                kept == kept0 + kept1,
                won == won0 + won1,
                out0 * t + kept0 == won0 * p,
                out1 * t + kept1 == won1 * p,
        ;
    } else {
        assert(won * p == 0 && out * t == 0) by (nonlinear_arith)
            requires
                won == 0,
                out == 0,
        ;
    }
    assert(out <= p) by (nonlinear_arith)
        requires
            out * t + kept == won * p,
            0 <= kept,
            0 <= won <= t,
            0 < t,
            0 <= p,
            0 <= out,
    ;
}

/// What `who` receives from a concatenation is the sum over its parts.
pub proof fn lemma_received_concat(front: Seq<Transfer>, back: Seq<Transfer>, who: Address)
    ensures
        received(front + back, who) == received(front, who) + received(back, who),
    decreases back.len(),
{
    if back.len() == 0 {
        assert(front + back =~= front);
    } else {
        lemma_received_concat(front, back.drop_last(), who);
        assert((front + back).drop_last() =~= front + back.drop_last());
    }
}

/// The bets of one participant before settlement: unclaimed, each for
/// `price`, on outcomes that differ.
pub open spec fn open_bets(bets: Seq<Bet>, price: nat) -> bool {
    &&& unclaimed(bets)
    &&& distinct_outcomes(bets)
    &&& forall|k: int| 0 <= k < bets.len() ==> (#[trigger] bets[k]).amount == price
}

/// The records of a ledger before settlement: no participant twice, and the
/// bets of each as `open_bets` says.
pub open spec fn open_records(bettors: Seq<Bettor>, price: nat) -> bool {
    &&& forall|i: int, j: int|
        0 <= i < j < bettors.len() ==> (#[trigger] bettors[i]).address != (
        #[trigger] bettors[j]).address
    &&& forall|i: int| 0 <= i < bettors.len() ==> open_bets((#[trigger] bettors[i]).bets, price)
}

/// Whether one of `bettors` is `who` and holds a bet on `home`-`away`.
pub open spec fn backs(bettors: Seq<Bettor>, who: Address, home: u8, away: u8) -> bool {
    exists|i: int|
        0 <= i < bettors.len() && (#[trigger] bettors[i]).address == who && holds_outcome(
            bettors[i].bets,
            home,
            away,
        )
}

/// Without a bet on the outcome a participant receives no transfer.
pub proof fn lemma_no_winner_no_payout(
    who: Address,
    bets: Seq<Bet>,
    home: u8,
    away: u8,
    pot: nat,
    total: nat,
)
    requires
        !holds_outcome(bets, home, away),
    ensures
        bettor_payouts(who, bets, home, away, pot, total) == Seq::<Transfer>::empty(),
    decreases bets.len(),
{
    if bets.len() > 0 {
        assert(!predicts(bets[bets.len() - 1], home, away));
        assert forall|k: int| 0 <= k < bets.drop_last().len() implies !predicts(
            #[trigger] bets.drop_last()[k],
            home,
            away,
        ) by {
            assert(!predicts(bets[k], home, away));
        }
        lemma_no_winner_no_payout(who, bets.drop_last(), home, away, pot, total);
    }
}

/// Of the transfers for one participant's bets, `who` receives the share of
/// one bet if the bets are `who`'s and one of them is on the outcome, and
/// nothing otherwise.
pub proof fn lemma_bettor_received(
    holder: Address,
    bets: Seq<Bet>,
    home: u8,
    away: u8,
    pot: nat,
    total: nat,
    price: nat,
    who: Address,
)
    requires
        total > 0,
        pot <= u128::MAX,
        open_bets(bets, price),
        winning_stake(bets, home, away) <= total,
    ensures
        received(bettor_payouts(holder, bets, home, away, pot, total), who) == if holder == who
            && holds_outcome(bets, home, away) {
            share(price, pot, total)
        } else {
            0
        },
    decreases bets.len(),
{
    if bets.len() > 0 {
        let rest = bets.drop_last();
        let last = bets.last();
        let earlier = bettor_payouts(holder, rest, home, away, pot, total);
        assert(bets[bets.len() - 1] == last);
        assert(open_bets(rest, price)) by {
            assert forall|k: int| 0 <= k < rest.len() implies !(#[trigger] rest[k]).claimed
                && rest[k].amount == price by {
                assert(!bets[k].claimed && bets[k].amount == price);
            }
            assert forall|j: int, k: int| 0 <= j < k < rest.len() implies !predicts(
                #[trigger] rest[j],
                (#[trigger] rest[k]).home_score,
                rest[k].away_score,
            ) by {
                assert(!predicts(bets[j], bets[k].home_score, bets[k].away_score));
            }
        }
        if predicts(last, home, away) {
            assert(!holds_outcome(rest, home, away)) by {
                assert forall|k: int| 0 <= k < rest.len() implies !predicts(
                    #[trigger] rest[k],
                    home,
                    away,
                ) by {
                    assert(!predicts(bets[k], bets[bets.len() - 1].home_score, bets[bets.len()
                        - 1].away_score));
                }
            }
            lemma_no_winner_no_payout(holder, rest, home, away, pot, total);
            lemma_winner_le_winning_stake(bets, bets.len() - 1, home, away);
            lemma_mul_div_le(price, pot, total);
            let part = share(price, pot, total);
            if part > 0 {
                let transfer = Transfer { to: holder, amount: part as u128 };
                assert(earlier.push(transfer) =~= seq![transfer]);
                lemma_paid_single(transfer, who);
            }
        } else {
            lemma_bettor_received(holder, rest, home, away, pot, total, price, who);
            assert(holds_outcome(bets, home, away) == holds_outcome(rest, home, away)) by {
                if holds_outcome(bets, home, away) {
                    let k = choose|k: int|
                        0 <= k < bets.len() && predicts(#[trigger] bets[k], home, away);
                    assert(predicts(rest[k], home, away));
                }
                if holds_outcome(rest, home, away) {
                    let k = choose|k: int|
                        0 <= k < rest.len() && predicts(#[trigger] rest[k], home, away);
                    assert(predicts(bets[k], home, away));
                }
            }
        }
    }
}

/// Of the transfers of a winning settlement, `who` receives the share of one
/// bet if `who` holds a bet on the outcome, and nothing otherwise.
pub proof fn lemma_received(
    bettors: Seq<Bettor>,
    home: u8,
    away: u8,
    pot: nat,
    total: nat,
    price: nat,
    who: Address,
)
    requires
        total > 0,
        pot <= u128::MAX,
        open_records(bettors, price),
        winning_total(bettors, home, away) <= total,
    ensures
        received(payouts(bettors, home, away, pot, total), who) == if backs(
            bettors,
            who,
            home,
            away,
        ) {
            share(price, pot, total)
        } else {
            0
        },
    decreases bettors.len(),
{
    if bettors.len() > 0 {
        let rest = bettors.drop_last();
        let last = bettors.last();
        assert(bettors[bettors.len() - 1] == last);
        assert(open_records(rest, price)) by {
            assert forall|i: int| 0 <= i < rest.len() implies open_bets(
                (#[trigger] rest[i]).bets,
                price,
            ) by {
                assert(open_bets(bettors[i].bets, price));
            }
            assert forall|i: int, j: int| 0 <= i < j < rest.len() implies (
            #[trigger] rest[i]).address != (#[trigger] rest[j]).address by {
                assert(bettors[i].address != bettors[j].address);
            }
        }
        lemma_received(rest, home, away, pot, total, price, who);
        lemma_bettor_received(last.address, last.bets, home, away, pot, total, price, who);
        lemma_received_concat(
            payouts(rest, home, away, pot, total),
            bettor_payouts(last.address, last.bets, home, away, pot, total),
            who,
        );
        if backs(rest, who, home, away) {
            let i = choose|i: int|
                0 <= i < rest.len() && (#[trigger] rest[i]).address == who && holds_outcome(
                    rest[i].bets,
                    home,
                    away,
                );
            assert(bettors[i].address == who && holds_outcome(bettors[i].bets, home, away));
            assert(bettors[i].address != bettors[bettors.len() - 1].address);
        } else if backs(bettors, who, home, away) {
            let i = choose|i: int|
                0 <= i < bettors.len() && (#[trigger] bettors[i]).address == who
                    && holds_outcome(bettors[i].bets, home, away);
            if i < rest.len() {
                assert(rest[i].address == who && holds_outcome(rest[i].bets, home, away));
            }
        }
    }
}

} // verus!
