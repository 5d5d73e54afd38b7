use la_porra::{Address, Bet, Error, LAPorra};

const DEADLINE: u64 = 5_000;

fn who(n: u8) -> Address {
    Address::new([n; 32])
}

fn ledger(bet_price: u128) -> LAPorra {
    match LAPorra::init(who(1), who(99), DEADLINE, bet_price) {
        Ok(ledger) => ledger,
        Err(e) => panic!("init failed: {:?}", e),
    }
}

#[test]
fn init_sets_configuration() {
    let l = ledger(250);
    assert_eq!(l.owner(), who(1));
    assert_eq!(l.get_contract_address(), who(99));
    assert_eq!(l.deadline(), DEADLINE);
    assert_eq!(l.bet_price(), 250);
    assert_eq!(l.total_pot(), 0);
    assert!(!l.resolved());
    assert_eq!(l.winning_result(), (0, 0));
    assert!(l.bettors().is_empty());
    assert!(l.get_bets(who(1)).is_empty());
    assert!(l.has_room());
}

#[test]
fn init_rejects_zero_price() {
    assert_eq!(LAPorra::init(who(1), who(99), DEADLINE, 0).err(), Some(Error::InvalidConfig));
    assert!(LAPorra::init(who(1), who(99), DEADLINE, 1).is_ok());
    assert!(LAPorra::init(who(1), who(99), 0, u128::MAX).is_ok());
}

#[test]
fn upgrade_changes_nothing() {
    let mut l = ledger(100);
    assert_eq!(l.place_bet(who(2), 10, 2, 1, 100), Ok(()));
    l.upgrade();
    assert_eq!(l.total_pot(), 100);
    assert_eq!(l.bettors(), vec![who(2)]);
    assert_eq!(
        l.get_bets(who(2)),
        vec![Bet { home_score: 2, away_score: 1, amount: 100, claimed: false }]
    );
    assert!(!l.resolved());
}

#[test]
fn accepted_bet_is_recorded_unclaimed() {
    let mut l = ledger(100);
    assert_eq!(l.place_bet(who(2), 0, 255, 0, 100), Ok(()));
    assert_eq!(
        l.get_bets(who(2)),
        vec![Bet { home_score: 255, away_score: 0, amount: 100, claimed: false }]
    );
    assert_eq!(l.bettors(), vec![who(2)]);
    assert_eq!(l.place_bet(who(2), DEADLINE - 1, 0, 255, 100), Ok(()));
    assert_eq!(l.bettors(), vec![who(2)]);
    assert_eq!(l.get_bets(who(2)).len(), 2);
    assert!(l.get_bets(who(3)).is_empty());
}

#[test]
fn pot_is_number_of_bets_times_price() {
    let mut l = ledger(7);
    let mut n: u128 = 0;
    for p in 2u8..6 {
        for score in 0u8..5 {
            assert_eq!(l.place_bet(who(p), 1, score, p, 7), Ok(()));
            n += 1;
            assert_eq!(l.total_pot(), n * 7);
        }
    }
    assert_eq!(l.total_pot(), 140);
}

#[test]
fn payment_must_equal_price() {
    let mut l = ledger(100);
    assert_eq!(l.place_bet(who(2), 10, 2, 1, 0), Err(Error::InvalidPayment));
    assert_eq!(l.place_bet(who(2), 10, 2, 1, 99), Err(Error::InvalidPayment));
    assert_eq!(l.place_bet(who(2), 10, 2, 1, 101), Err(Error::InvalidPayment));
    assert_eq!(l.total_pot(), 0);
    assert!(l.bettors().is_empty());
    assert_eq!(l.place_bet(who(2), 10, 2, 1, 100), Ok(()));
}

#[test]
fn eleventh_bet_is_refused() {
    let mut l = ledger(100);
    for score in 0u8..10 {
        assert_eq!(l.place_bet(who(2), 10, score, 0, 100), Ok(()));
    }
    assert_eq!(l.get_bets(who(2)).len(), 10);
    assert_eq!(l.place_bet(who(2), 10, 10, 0, 100), Err(Error::BetLimitExceeded));
    assert_eq!(l.get_bets(who(2)).len(), 10);
    assert_eq!(l.total_pot(), 1000);
    assert_eq!(l.place_bet(who(3), 10, 10, 0, 100), Ok(()));
}

#[test]
fn repeated_outcome_is_refused() {
    let mut l = ledger(100);
    assert_eq!(l.place_bet(who(2), 10, 2, 1, 100), Ok(()));
    assert_eq!(l.place_bet(who(2), 11, 2, 1, 100), Err(Error::DuplicateOutcome));
    assert_eq!(l.place_bet(who(2), 11, 1, 2, 100), Ok(()));
    assert_eq!(l.place_bet(who(3), 11, 2, 1, 100), Ok(()));
    let bets = l.get_bets(who(2));
    assert_eq!(bets.len(), 2);
    for (i, a) in bets.iter().enumerate() {
        for b in bets.iter().skip(i + 1) {
            assert!(a.home_score != b.home_score || a.away_score != b.away_score);
        }
    }
    assert_eq!(l.total_pot(), 300);
}

#[test]
fn first_failing_check_of_a_bet_is_reported() {
    let mut l = ledger(100);
    for score in 0u8..10 {
        assert_eq!(l.place_bet(who(2), 10, score, 0, 100), Ok(()));
    }
    assert_eq!(l.place_bet(who(2), DEADLINE, 0, 0, 5), Err(Error::BettingClosed));
    assert_eq!(l.place_bet(who(2), 10, 0, 0, 5), Err(Error::InvalidPayment));
    assert_eq!(l.place_bet(who(2), 10, 0, 0, 100), Err(Error::BetLimitExceeded));
}

#[test]
fn only_the_authority_settles() {
    let mut l = ledger(100);
    assert_eq!(l.place_bet(who(2), 10, 2, 1, 100), Ok(()));
    assert_eq!(l.resolve_bets(who(2), DEADLINE, 2, 1).err(), Some(Error::Unauthorized));
    assert_eq!(l.resolve_bets(who(99), DEADLINE, 2, 1).err(), Some(Error::Unauthorized));
    assert!(!l.resolved());
    assert_eq!(l.total_pot(), 100);
    assert_eq!(
        l.get_bets(who(2)),
        vec![Bet { home_score: 2, away_score: 1, amount: 100, claimed: false }]
    );
}

#[test]
fn settlement_waits_for_the_deadline() {
    let mut l = ledger(100);
    assert_eq!(l.place_bet(who(2), 10, 2, 1, 100), Ok(()));
    assert_eq!(l.resolve_bets(who(1), DEADLINE - 1, 2, 1).err(), Some(Error::TooEarlyToResolve));
    assert!(!l.resolved());
    assert_eq!(l.winning_result(), (0, 0));
    assert_eq!(l.total_pot(), 100);
    assert!(l.resolve_bets(who(1), DEADLINE, 2, 1).is_ok());
    assert!(l.resolved());
}

#[test]
fn first_failing_check_of_settlement_is_reported() {
    let mut l = ledger(100);
    assert_eq!(l.resolve_bets(who(2), 0, 2, 1).err(), Some(Error::Unauthorized));
    assert!(l.resolve_bets(who(1), DEADLINE, 2, 1).is_ok());
    assert_eq!(l.resolve_bets(who(2), 0, 2, 1).err(), Some(Error::Unauthorized));
    assert_eq!(l.resolve_bets(who(1), 0, 2, 1).err(), Some(Error::AlreadyResolved));
}

#[test]
fn resolved_stays_true() {
    let mut l = ledger(100);
    assert!(!l.resolved());
    assert_eq!(l.place_bet(who(2), 10, 2, 1, 100), Ok(()));
    assert!(!l.resolved());
    assert!(l.resolve_bets(who(1), DEADLINE, 0, 0).is_ok());
    assert!(l.resolved());
    assert_eq!(l.place_bet(who(2), DEADLINE, 3, 1, 100), Err(Error::BettingClosed));
    assert!(l.resolved());
    l.upgrade();
    assert!(l.resolved());
    assert!(l.resolve_bets(who(1), DEADLINE, 2, 1).is_err());
    assert!(l.resolved());
    assert_eq!(l.winning_result(), (0, 0));
}

#[test]
fn identities_differ_in_any_byte() {
    let mut bytes = [0u8; 32];
    let a = Address::new(bytes);
    bytes[31] = 1;
    let b = Address::new(bytes);
    assert!(a != b);
    assert!(a == Address::new([0u8; 32]));
    let mut l = ledger(100);
    assert_eq!(l.place_bet(a, 10, 2, 1, 100), Ok(()));
    assert_eq!(l.place_bet(b, 10, 2, 1, 100), Ok(()));
    assert_eq!(l.bettors(), vec![a, b]);
}

#[test]
fn room_ends_at_128_bits() {
    let price: u128 = u128::MAX / 2 + 1;
    let mut l = ledger(price);
    assert!(l.has_room());
    assert_eq!(l.place_bet(who(2), 10, 2, 1, price), Ok(()));
    assert_eq!(l.total_pot(), price);
    assert!(!l.has_room());
}
