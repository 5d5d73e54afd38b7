use la_porra::{Address, Bet, Error, LAPorra, Transfer};

const DEADLINE: u64 = 1_766_620_800;

fn who(n: u8) -> Address {
    Address::new([n; 32])
}

fn authority() -> Address {
    who(1)
}

fn ledger(bet_price: u128) -> LAPorra {
    match LAPorra::init(authority(), who(99), DEADLINE, bet_price) {
        Ok(ledger) => ledger,
        Err(e) => panic!("init failed: {:?}", e),
    }
}

fn received(transfers: &[Transfer], to: Address) -> u128 {
    let mut sum: u128 = 0;
    for t in transfers {
        if t.to == to {
            sum += t.amount;
        }
    }
    sum
}

fn settle(ledger: &mut LAPorra, home: u8, away: u8) -> Vec<Transfer> {
    match ledger.resolve_bets(authority(), DEADLINE, home, away) {
        Ok(transfers) => transfers,
        Err(e) => panic!("settlement failed: {:?}", e),
    }
}

#[test]
fn sole_winner_receives_entire_pot() {
    let mut l = ledger(100);
    assert_eq!(l.place_bet(who(2), DEADLINE - 1, 2, 1, 100), Ok(()));
    assert_eq!(l.total_pot(), 100);
    let transfers = settle(&mut l, 2, 1);
    assert_eq!(transfers, vec![Transfer { to: who(2), amount: 100 }]);
    assert_eq!(received(&transfers, who(2)), 100);
    assert!(l.resolved());
    assert_eq!(l.winning_result(), (2, 1));
    assert_eq!(l.total_pot(), 0);
    assert_eq!(
        l.get_bets(who(2)),
        vec![Bet { home_score: 2, away_score: 1, amount: 100, claimed: true }]
    );
}

#[test]
fn winner_takes_the_losers_stake() {
    let mut l = ledger(100);
    assert_eq!(l.place_bet(who(2), 10, 2, 1, 100), Ok(()));
    assert_eq!(l.place_bet(who(3), 11, 0, 0, 100), Ok(()));
    assert_eq!(l.total_pot(), 200);
    let transfers = settle(&mut l, 2, 1);
    assert_eq!(transfers, vec![Transfer { to: who(2), amount: 200 }]);
    assert_eq!(received(&transfers, who(2)), 200);
    assert_eq!(received(&transfers, who(3)), 0);
    assert_eq!(
        l.get_bets(who(3)),
        vec![Bet { home_score: 0, away_score: 0, amount: 100, claimed: false }]
    );
}

#[test]
fn two_winners_share_in_proportion() {
    let mut l = ledger(50);
    assert_eq!(l.place_bet(who(2), 10, 1, 1, 50), Ok(()));
    assert_eq!(l.place_bet(who(2), 11, 2, 0, 50), Ok(()));
    assert_eq!(l.place_bet(who(3), 12, 1, 1, 50), Ok(()));
    assert_eq!(l.total_pot(), 150);
    let transfers = settle(&mut l, 1, 1);
    assert_eq!(
        transfers,
        vec![Transfer { to: who(2), amount: 75 }, Transfer { to: who(3), amount: 75 }]
    );
    let total: u128 = transfers.iter().map(|t| t.amount).sum();
    assert_eq!(total, 150);
    assert_eq!(l.total_pot(), 0);
    assert_eq!(
        l.get_bets(who(2)),
        vec![
            Bet { home_score: 1, away_score: 1, amount: 50, claimed: true },
            Bet { home_score: 2, away_score: 0, amount: 50, claimed: false },
        ]
    );
}

#[test]
fn settlement_without_bets_transfers_nothing() {
    let mut l = ledger(100);
    let transfers = settle(&mut l, 3, 2);
    assert_eq!(l.total_pot(), 0);
    assert!(transfers.is_empty());
    assert!(l.resolved());
    assert_eq!(l.winning_result(), (3, 2));
}

#[test]
fn bet_after_deadline_is_refused() {
    let mut l = ledger(100);
    assert_eq!(l.place_bet(who(2), DEADLINE + 1, 2, 1, 100), Err(Error::BettingClosed));
    assert_eq!(l.place_bet(who(2), DEADLINE, 2, 1, 100), Err(Error::BettingClosed));
    assert_eq!(l.total_pot(), 0);
    assert!(l.get_bets(who(2)).is_empty());
    assert!(l.bettors().is_empty());
}

#[test]
fn second_settlement_is_refused() {
    let mut l = ledger(100);
    assert_eq!(l.place_bet(who(2), 10, 2, 1, 100), Ok(()));
    assert!(l.resolve_bets(authority(), DEADLINE, 2, 1).is_ok());
    assert_eq!(l.resolve_bets(authority(), DEADLINE + 5, 0, 0).err(), Some(Error::AlreadyResolved));
    assert_eq!(l.winning_result(), (2, 1));
    assert_eq!(l.total_pot(), 0);
    assert!(l.resolved());
}

#[test]
fn no_winner_forfeits_pot_to_authority() {
    let mut l = ledger(100);
    assert_eq!(l.place_bet(who(2), 10, 2, 1, 100), Ok(()));
    assert_eq!(l.place_bet(who(3), 11, 0, 0, 100), Ok(()));
    assert_eq!(l.place_bet(who(3), 12, 1, 0, 100), Ok(()));
    let transfers = settle(&mut l, 5, 5);
    assert_eq!(transfers, vec![Transfer { to: authority(), amount: 300 }]);
    assert_eq!(received(&transfers, authority()), 300);
    assert_eq!(received(&transfers, who(2)), 0);
    assert_eq!(received(&transfers, who(3)), 0);
    assert_eq!(l.total_pot(), 0);
    for bet in l.get_bets(who(2)).iter().chain(l.get_bets(who(3)).iter()) {
        assert!(!bet.claimed);
    }
}

#[test]
fn rounding_remainder_stays_in_the_pot() {
    let mut l = ledger(100);
    assert_eq!(l.place_bet(who(2), 10, 1, 0, 100), Ok(()));
    assert_eq!(l.place_bet(who(3), 10, 1, 0, 100), Ok(()));
    assert_eq!(l.place_bet(who(4), 10, 1, 0, 100), Ok(()));
    assert_eq!(l.place_bet(who(5), 10, 0, 3, 100), Ok(()));
    let transfers = settle(&mut l, 1, 0);
    assert_eq!(
        transfers,
        vec![
            Transfer { to: who(2), amount: 133 },
            Transfer { to: who(3), amount: 133 },
            Transfer { to: who(4), amount: 133 },
        ]
    );
    let total: u128 = transfers.iter().map(|t| t.amount).sum();
    assert!(total <= 400);
    assert_eq!(l.total_pot(), 1);
}

#[test]
fn transfers_follow_the_order_of_first_bets() {
    let mut l = ledger(10);
    assert_eq!(l.place_bet(who(7), 1, 0, 0, 10), Ok(()));
    assert_eq!(l.place_bet(who(3), 2, 4, 4, 10), Ok(()));
    assert_eq!(l.place_bet(who(5), 3, 4, 4, 10), Ok(()));
    assert_eq!(l.place_bet(who(7), 4, 4, 4, 10), Ok(()));
    assert_eq!(l.bettors(), vec![who(7), who(3), who(5)]);
    let transfers = settle(&mut l, 4, 4);
    assert_eq!(
        transfers,
        vec![
            Transfer { to: who(7), amount: 13 },
            Transfer { to: who(3), amount: 13 },
            Transfer { to: who(5), amount: 13 },
        ]
    );
    assert_eq!(l.total_pot(), 1);
}

#[test]
fn shares_beyond_64_bits_are_exact() {
    let price: u128 = 1_000_000_000_000_000_000_000_000_000_000;
    let mut l = ledger(price);
    assert_eq!(l.place_bet(who(2), 10, 1, 0, price), Ok(()));
    assert_eq!(l.place_bet(who(3), 10, 1, 0, price), Ok(()));
    assert_eq!(l.place_bet(who(4), 10, 0, 0, price), Ok(()));
    assert_eq!(l.total_pot(), 3 * price);
    let transfers = settle(&mut l, 1, 0);
    assert_eq!(
        transfers,
        vec![
            Transfer { to: who(2), amount: 3 * price / 2 },
            Transfer { to: who(3), amount: 3 * price / 2 },
        ]
    );
    assert_eq!(l.total_pot(), 0);
}

#[test]
fn authority_may_bet_and_win() {
    let mut l = ledger(20);
    assert_eq!(l.place_bet(authority(), 10, 1, 1, 20), Ok(()));
    assert_eq!(l.place_bet(who(2), 10, 0, 1, 20), Ok(()));
    let transfers = settle(&mut l, 1, 1);
    assert_eq!(transfers, vec![Transfer { to: authority(), amount: 40 }]);
}
