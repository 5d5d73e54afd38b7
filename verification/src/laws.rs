//! What holds of the ledger in every state, proved of the model that the
//! executable ledger implements.

use crate::address::Address;
use crate::lemmas::{
    backs, lemma_no_winner_no_total, lemma_paid_scaled, lemma_paid_single, lemma_received,
    lemma_stake_push, lemma_total_stake_by_count, lemma_totals_claim_all, lemma_totals_push,
    lemma_totals_update, lemma_unresolved_unclaimed, open_bets, open_records, unclaimed,
};
use crate::model::{
    bet_count, claim, distinct_outcomes, dust, holds_outcome, paid, received, share,
    winning_total, Bettor, Call, Ledger, MAX_BETS,
};
use crate::types::{Bet, Error, Transfer};
use vstd::prelude::*;

verus! {

/// A new ledger is well formed, empty and unresolved.
pub proof fn law_initial(owner: Address, contract_address: Address, deadline: u64, bet_price: nat)
    requires
        bet_price > 0,
    ensures
        Ledger::initial(owner, contract_address, deadline, bet_price).wf(),
        Ledger::initial(owner, contract_address, deadline, bet_price).total_pot == 0,
        bet_count(Ledger::initial(owner, contract_address, deadline, bet_price).bettors) == 0,
        !Ledger::initial(owner, contract_address, deadline, bet_price).resolved,
{
}

/// An accepted bet leaves the ledger well formed, adds one bet and the bet
/// price to the pot, and touches nobody else's bets.
pub proof fn law_accepted_bet(
    ledger: Ledger,
    who: Address,
    now: u64,
    home: u8,
    away: u8,
    payment: u128,
)
    requires
        ledger.wf(),
        ledger.has_room(),
        ledger.bet_rejection(who, now, home, away, payment) is None,
    ensures
        ledger.with_bet(who, home, away, payment).wf(),
        ledger.with_bet(who, home, away, payment).total_pot == ledger.total_pot
            + ledger.bet_price,
        bet_count(ledger.with_bet(who, home, away, payment).bettors) == bet_count(ledger.bettors)
            + 1,
        ledger.with_bet(who, home, away, payment).bets_of(who) == ledger.bets_of(who).push(
            Bet { home_score: home, away_score: away, amount: payment, claimed: false },
        ),
        forall|other: Address|
            other != who ==> ledger.with_bet(who, home, away, payment).bets_of(other)
                == ledger.bets_of(other),
{
    let next = ledger.with_bet(who, home, away, payment);
    let bet = Bet { home_score: home, away_score: away, amount: payment, claimed: false };
    if ledger.registered(who) {
        let i = ledger.index_of(who);
        let record = Bettor { address: who, bets: ledger.bets_of(who).push(bet) };
        lemma_totals_update(ledger.bettors, i, record);
        lemma_stake_push(ledger.bets_of(who), bet);
        assert forall|j: int| 0 <= j < next.bettors.len() implies next.bettor_wf(
            #[trigger] next.bettors[j],
        ) by {
            assert(ledger.bettor_wf(ledger.bettors[j]));
        }
        assert(next.bettors[i].address == who);
    } else {
        let record = Bettor { address: who, bets: seq![bet] };
        lemma_totals_push(ledger.bettors, record);
        lemma_stake_push(Seq::<Bet>::empty(), bet);
        assert(Seq::<Bet>::empty().push(bet) =~= seq![bet]);
        assert forall|j: int| 0 <= j < next.bettors.len() implies next.bettor_wf(
            #[trigger] next.bettors[j],
        ) by {
            if j < ledger.bettors.len() {
                assert(ledger.bettor_wf(ledger.bettors[j]));
            }
        }
        assert(next.bettors[ledger.bettors.len() as int].address == who);
    }
    assert(next.registered(who));
    assert(next.bettors[next.index_of(who)].address == who);
    assert forall|other: Address| other != who implies next.bets_of(other) == ledger.bets_of(
        other,
    ) by {
        if ledger.registered(other) {
            let k = ledger.index_of(other);
            assert(next.bettors[k].address == other);
            assert(next.bettors[next.index_of(other)].address == other);
        } else if next.registered(other) {
            let k = next.index_of(other);
            assert(ledger.bettors[k].address == other);
        }
    }
}

/// Settlement leaves the ledger well formed and resolved on the declared
/// outcome, and what leaves the pot is what the transfers carry.
pub proof fn law_settlement(ledger: Ledger, home: u8, away: u8)
    requires
        ledger.wf(),
        !ledger.resolved,
    ensures
        ledger.settled(home, away).wf(),
        ledger.settled(home, away).resolved,
        ledger.settled(home, away).winning_result == (home, away),
        paid(ledger.settlement_transfers(home, away)) <= ledger.total_pot,
        ledger.settled(home, away).total_pot + paid(ledger.settlement_transfers(home, away))
            == ledger.total_pot,
{
    let next = ledger.settled(home, away);
    let total = winning_total(ledger.bettors, home, away);
    lemma_unresolved_unclaimed(ledger);
    if total > 0 {
        lemma_paid_scaled(ledger.bettors, home, away, ledger.total_pot, total);
        lemma_totals_claim_all(ledger.bettors, home, away);
        assert forall|j: int| 0 <= j < next.bettors.len() implies next.bettor_wf(
            #[trigger] next.bettors[j],
        ) by {
            assert(ledger.bettor_wf(ledger.bettors[j]));
            assert(unclaimed(ledger.bettors[j].bets));
        }
    } else {
        if ledger.total_pot > 0 {
            lemma_paid_single(
                Transfer { to: ledger.owner, amount: ledger.total_pot as u128 },
                ledger.owner,
            );
        }
        assert forall|j: int| 0 <= j < next.bettors.len() implies next.bettor_wf(
            #[trigger] next.bettors[j],
        ) by {
            assert(ledger.bettor_wf(ledger.bettors[j]));
            assert(unclaimed(ledger.bettors[j].bets));
        }
    }
}

/// Settlement with a stake on the outcome claims every participant's matching
/// bets and changes nothing else of them; without one it leaves all bets as
/// they are.
pub proof fn law_settlement_claims(ledger: Ledger, home: u8, away: u8, who: Address)
    requires
        ledger.wf(),
    ensures
        ledger.settled(home, away).bets_of(who) == if winning_total(ledger.bettors, home, away)
            > 0 {
            claim(ledger.bets_of(who), home, away)
        } else {
            ledger.bets_of(who)
        },
{
    let next = ledger.settled(home, away);
    if ledger.registered(who) {
        let i = ledger.index_of(who);
        assert(next.bettors[i].address == who);
        let k = next.index_of(who);
        assert(next.bettors[k].address == who);
        assert(ledger.bettors[k].address == who);
        assert(k == i);
    } else if next.registered(who) {
        let k = next.index_of(who);
        assert(next.bettors[k].address == who);
        assert(ledger.bettors[k].address == who);
    } else {
        assert(claim(Seq::<Bet>::empty(), home, away) =~= Seq::<Bet>::empty());
    }
}

/// No call changes the authority, the ledger's identity, the deadline or the
/// bet price.
pub proof fn law_configuration_fixed(ledger: Ledger, call: Call)
    ensures
        ledger.after(call).owner == ledger.owner,
        ledger.after(call).contract_address == ledger.contract_address,
        ledger.after(call).deadline == ledger.deadline,
        ledger.after(call).bet_price == ledger.bet_price,
{
}

/// Whatever is called, a well-formed ledger stays well formed.
pub proof fn law_invariant_kept(ledger: Ledger, call: Call)
    requires
        ledger.wf(),
        call is PlaceBet ==> ledger.has_room(),
    ensures
        ledger.after(call).wf(),
{
    match call {
        Call::PlaceBet { caller, now, home, away, payment } => {
            if ledger.bet_rejection(caller, now, home, away, payment) is None {
                law_accepted_bet(ledger, caller, now, home, away, payment);
            }
        },
        Call::ResolveBets { caller, now, home, away } => {
            if ledger.settlement_rejection(caller, now) is None {
                law_settlement(ledger, home, away);
            }
        },
    }
}

/// Nobody ever holds more than the maximum number of bets.
pub proof fn law_bet_limit(ledger: Ledger, who: Address)
    requires
        ledger.wf(),
    ensures
        ledger.bets_of(who).len() <= MAX_BETS,
{
    if ledger.registered(who) {
        assert(ledger.bettor_wf(ledger.bettors[ledger.index_of(who)]));
    }
}

/// Nobody ever holds two bets on the same outcome.
pub proof fn law_distinct_outcomes(ledger: Ledger, who: Address)
    requires
        ledger.wf(),
    ensures
        distinct_outcomes(ledger.bets_of(who)),
{
    if ledger.registered(who) {
        assert(ledger.bettor_wf(ledger.bettors[ledger.index_of(who)]));
    }
}

/// The pot and what settlement paid out make up the number of bets times the
/// bet price; until settlement that is the pot alone.
pub proof fn law_pot_is_bets_times_price(ledger: Ledger)
    requires
        ledger.wf(),
    ensures
        ledger.total_pot + ledger.disbursed == bet_count(ledger.bettors) * ledger.bet_price,
        !ledger.resolved ==> ledger.total_pot == bet_count(ledger.bettors) * ledger.bet_price,
{
    assert forall|i: int, k: int|
        0 <= i < ledger.bettors.len() && 0 <= k < ledger.bettors[i].bets.len() implies (
    #[trigger] ledger.bettors[i].bets[k]).amount == ledger.bet_price by {
        assert(ledger.bettor_wf(ledger.bettors[i]));
    }
    lemma_total_stake_by_count(ledger.bettors, ledger.bet_price);
}

/// The ledger is unresolved from creation until a settlement is accepted,
/// which can happen once only, and resolved ever after.
pub proof fn law_resolved_once(ledger: Ledger, call: Call)
    ensures
        ledger.resolved ==> ledger.after(call).resolved,
        !ledger.resolved && ledger.after(call).resolved ==> {
            &&& call matches Call::ResolveBets { caller, now, .. }
            &&& ledger.settlement_rejection(caller, now) is None
        },
        call matches Call::ResolveBets { caller, now, .. } ==> {
            &&& ledger.settlement_rejection(caller, now) is None ==> !ledger.resolved
                && ledger.after(call).resolved
            &&& ledger.resolved && caller == ledger.owner ==> ledger.settlement_rejection(
                caller,
                now,
            ) == Some(Error::AlreadyResolved)
        },
{
}

/// A winning settlement pays out no more than the pot. What it keeps back is
/// the sum of the remainders of the floor divisions, divided by the winning
/// total: the pot is paid out whole exactly when no division left a remainder.
pub proof fn law_payouts_within_pot(ledger: Ledger, home: u8, away: u8)
    requires
        ledger.wf(),
        !ledger.resolved,
        winning_total(ledger.bettors, home, away) > 0,
    ensures
        paid(ledger.settlement_transfers(home, away)) <= ledger.total_pot,
        (ledger.total_pot - paid(ledger.settlement_transfers(home, away))) * winning_total(
            ledger.bettors,
            home,
            away,
        ) == dust(
            ledger.bettors,
            home,
            away,
            ledger.total_pot,
            winning_total(ledger.bettors, home, away),
        ),
        paid(ledger.settlement_transfers(home, away)) == ledger.total_pot <==> dust(
            ledger.bettors,
            home,
            away,
            ledger.total_pot,
            winning_total(ledger.bettors, home, away),
        ) == 0,
{
    let total = winning_total(ledger.bettors, home, away) as int;
    let pot = ledger.total_pot as int;
    let out = paid(ledger.settlement_transfers(home, away)) as int;
    let kept = dust(ledger.bettors, home, away, ledger.total_pot, total as nat) as int;
    lemma_unresolved_unclaimed(ledger);
    lemma_paid_scaled(ledger.bettors, home, away, ledger.total_pot, total as nat);
    assert((pot - out) * total == kept && (out == pot <==> kept == 0)) by (nonlinear_arith)
        requires
            out * total + kept == total * pot,
            total > 0,
            0 <= out <= pot,
            0 <= kept,
    ;
}

/// In a winning settlement everyone who holds a bet on the outcome receives
/// the share of one bet, `bet_price * pot / total` rounded down, and nobody
/// else receives anything.
pub proof fn law_winners_receive_their_share(ledger: Ledger, home: u8, away: u8, who: Address)
    requires
        ledger.wf(),
        !ledger.resolved,
        winning_total(ledger.bettors, home, away) > 0,
    ensures
        received(ledger.settlement_transfers(home, away), who) == if holds_outcome(
            ledger.bets_of(who),
            home,
            away,
        ) {
            share(ledger.bet_price, ledger.total_pot, winning_total(ledger.bettors, home, away))
        } else {
            0
        },
{
    let total = winning_total(ledger.bettors, home, away);
    lemma_unresolved_unclaimed(ledger);
    assert(open_records(ledger.bettors, ledger.bet_price)) by {
        assert forall|i: int| 0 <= i < ledger.bettors.len() implies open_bets(
            (#[trigger] ledger.bettors[i]).bets,
            ledger.bet_price,
        ) by {
            assert(ledger.bettor_wf(ledger.bettors[i]));
            assert(unclaimed(ledger.bettors[i].bets));
        }
    }
    lemma_received(
        ledger.bettors,
        home,
        away,
        ledger.total_pot,
        total,
        ledger.bet_price,
        who,
    );
    if backs(ledger.bettors, who, home, away) {
        let i = choose|i: int|
            0 <= i < ledger.bettors.len() && (#[trigger] ledger.bettors[i]).address == who
                && holds_outcome(ledger.bettors[i].bets, home, away);
        assert(ledger.bettors[ledger.index_of(who)].address == who);
        assert(ledger.index_of(who) == i);
    } else if holds_outcome(ledger.bets_of(who), home, away) {
        assert(ledger.registered(who));
        assert(ledger.bettors[ledger.index_of(who)].address == who);
    }
}

/// Where no bet is on the declared outcome, settlement sends the whole pot to
/// the authority and nothing to anybody else, claims no bet and empties the
/// pot.
pub proof fn law_forfeit_to_authority(ledger: Ledger, home: u8, away: u8)
    requires
        ledger.wf(),
        forall|i: int|
            0 <= i < ledger.bettors.len() ==> !holds_outcome(
                (#[trigger] ledger.bettors[i]).bets,
                home,
                away,
            ),
    ensures
        ledger.settlement_transfers(home, away) == if ledger.total_pot > 0 {
            seq![Transfer { to: ledger.owner, amount: ledger.total_pot as u128 }]
        } else {
            Seq::<Transfer>::empty()
        },
        received(ledger.settlement_transfers(home, away), ledger.owner) == ledger.total_pot,
        forall|who: Address|
            who != ledger.owner ==> received(ledger.settlement_transfers(home, away), who) == 0,
        ledger.settled(home, away).bettors == ledger.bettors,
        ledger.settled(home, away).total_pot == 0,
{
    lemma_no_winner_no_total(ledger.bettors, home, away);
    let transfer = Transfer { to: ledger.owner, amount: ledger.total_pot as u128 };
    lemma_paid_single(transfer, ledger.owner);
    assert forall|who: Address| who != ledger.owner implies received(
        ledger.settlement_transfers(home, away),
        who,
    ) == 0 by {
        lemma_paid_single(transfer, who);
    }
}

} // verus!
