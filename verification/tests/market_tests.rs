use prediction_market::amount::parse_amount;
use prediction_market::amount::SCALE;
use prediction_market::market::AdminBadge;
use prediction_market::market::PredictionMarket;
use prediction_market::model::MarketError;
use prediction_market::model::PayoutPolicy;
use prediction_market::parse::split_csv;
use prediction_market::tokens::Tokens;

fn units(u: u128) -> u128 {
    u * SCALE
}

fn new_market(
    title: &str,
    outcomes: &str,
    odds: &str,
    min_bet: u128,
    max_bet: u128,
    policy: PayoutPolicy,
) -> (PredictionMarket, AdminBadge) {
    PredictionMarket::instantiate_prediction_market(
        title.to_string(),
        outcomes.to_string(),
        odds.to_string(),
        min_bet,
        max_bet,
        policy,
    )
    .expect("valid configuration")
}

fn ab_market(policy: PayoutPolicy) -> (PredictionMarket, AdminBadge) {
    new_market("title", "A,B", "2,3", units(5), units(200), policy)
}

fn bet(market: &mut PredictionMarket, user: &str, outcome: &str, amount: u128) {
    let accepted = market
        .place_bet(user.to_string(), outcome.to_string(), Tokens::new(amount))
        .is_ok();
    assert!(accepted, "bet refused");
}

fn bet_error(market: &mut PredictionMarket, user: &str, outcome: &str, amount: u128) -> MarketError {
    match market.place_bet(user.to_string(), outcome.to_string(), Tokens::new(amount)) {
        Ok(()) => panic!("bet unexpectedly accepted"),
        Err((e, refund)) => {
            assert_eq!(refund.amount(), amount);
            e
        }
    }
}

#[test]
fn test_instantiate_prediction_market() {
    let result = PredictionMarket::instantiate_prediction_market(
        "title".to_string(),
        "outcome1,outcome2".to_string(),
        "2,3".to_string(),
        units(5),
        units(100),
        PayoutPolicy::FixedOdds,
    );
    assert!(result.is_ok());
}

#[test]
fn test_list_outcomes() {
    let (market, _badge) = new_market(
        "title",
        "outcome1,outcome2",
        "2,3",
        units(5),
        units(100),
        PayoutPolicy::FixedOdds,
    );
    let outcomes = market.list_outcomes();
    let expected: Vec<String> = vec!["outcome1".to_string(), "outcome2".to_string()];
    assert_eq!(outcomes, expected);
}

#[test]
fn test_deposit() {
    let (mut market, _badge) = new_market(
        "title",
        "outcome1,outcome2",
        "2,3",
        units(5),
        units(100),
        PayoutPolicy::FixedOdds,
    );
    market.deposit_to_xrd_vault(Tokens::new(units(200)));
    assert_eq!(market.get_xrd_vault_balance(), units(200));
}

#[test]
fn test_conservation_fixed_odds() {
    let (mut market, badge) = ab_market(PayoutPolicy::FixedOdds);
    bet(&mut market, "userX", "A", units(100));
    bet(&mut market, "userY", "B", units(50));
    assert_eq!(market.get_total_staked(), units(150));
    // The B pool sweep alone (50) cannot cover the 200 owed to userX.
    assert_eq!(market.resolve_market(0, &badge), Err(MarketError::InsufficientFunds));
    market.deposit_to_xrd_vault(Tokens::new(units(150)));
    let rewards = market.resolve_market(0, &badge).expect("funded resolution");
    assert_eq!(rewards, vec![("userX".to_string(), units(200))]);
    // 150 deposited + 50 swept - 200 paid.
    assert_eq!(market.get_xrd_vault_balance(), 0);
    assert_eq!(market.get_total_staked(), 0);
    let claimed = market.claim_reward("userX".to_string()).expect("reward owed");
    assert_eq!(claimed.amount(), units(200));
    assert!(matches!(
        market.claim_reward("userY".to_string()),
        Err(MarketError::NothingToClaim)
    ));
}

#[test]
fn test_conservation_proportional() {
    let (mut market, badge) = ab_market(PayoutPolicy::Proportional);
    bet(&mut market, "userX", "A", units(100));
    bet(&mut market, "userY", "A", units(50));
    bet(&mut market, "userZ", "B", units(30));
    assert_eq!(market.get_total_staked(), units(180));
    // The proportional split funds itself from the staked pools alone: no
    // house deposit is needed.
    let rewards = market.resolve_market(0, &badge).expect("self-funded resolution");
    assert_eq!(
        rewards,
        vec![("userX".to_string(), units(120)), ("userY".to_string(), units(60))]
    );
    let total_rewarded: u128 = rewards.iter().map(|r| r.1).sum();
    assert_eq!(total_rewarded, units(180));
    // No value is stranded: every pool is swept and the house keeps only
    // the rounding residue, none here.
    assert_eq!(market.get_outcome_balance("A".to_string()), Ok(0));
    assert_eq!(market.get_outcome_balance("B".to_string()), Ok(0));
    assert_eq!(market.get_xrd_vault_balance(), 0);
    let x = market.claim_reward("userX".to_string()).expect("reward owed");
    assert_eq!(x.amount(), units(120));
    let y = market.claim_reward("userY".to_string()).expect("reward owed");
    assert_eq!(y.amount(), units(60));
    assert!(matches!(
        market.claim_reward("userZ".to_string()),
        Err(MarketError::NothingToClaim)
    ));
}

#[test]
fn test_proportional_rounding_residue() {
    let (mut market, badge) = ab_market(PayoutPolicy::Proportional);
    bet(&mut market, "userX", "A", units(7));
    bet(&mut market, "userY", "A", units(5));
    bet(&mut market, "userZ", "B", units(5));
    // Rewards round down: 7*17/12 and 5*17/12 of a unit.
    let rewards = market.resolve_market(0, &badge).expect("self-funded resolution");
    assert_eq!(
        rewards,
        vec![
            ("userX".to_string(), 9_916_666u128),
            ("userY".to_string(), 7_083_333u128),
        ]
    );
    // The one-subunit rounding residue stays in the house.
    assert_eq!(market.get_xrd_vault_balance(), 1);
    assert_eq!(market.get_outcome_balance("A".to_string()), Ok(0));
    assert_eq!(market.get_outcome_balance("B".to_string()), Ok(0));
}

#[test]
fn test_void_refund_identity() {
    let (mut market, badge) = ab_market(PayoutPolicy::FixedOdds);
    bet(&mut market, "userX", "A", units(100));
    bet(&mut market, "userX", "B", units(30));
    bet(&mut market, "userY", "B", units(20));
    market.resolve_market_as_void(&badge).expect("voidable");
    assert_eq!(market.get_xrd_vault_balance(), 0);
    assert_eq!(market.get_total_staked(), 0);
    let x = market.claim_reward("userX".to_string()).expect("refund owed");
    assert_eq!(x.amount(), units(130));
    let y = market.claim_reward("userY".to_string()).expect("refund owed");
    assert_eq!(y.amount(), units(20));
}

#[test]
fn test_lock_blocks_bets() {
    let (mut market, badge) = ab_market(PayoutPolicy::FixedOdds);
    bet(&mut market, "userX", "A", units(10));
    market.lock_market(&badge).expect("badge held");
    assert_eq!(bet_error(&mut market, "userY", "B", units(10)), MarketError::MarketLocked);
    assert_eq!(market.get_total_staked(), units(10));
}

#[test]
fn test_cumulative_cap() {
    let (mut market, _badge) = new_market(
        "title",
        "A,B",
        "2,3",
        units(60),
        units(100),
        PayoutPolicy::FixedOdds,
    );
    bet(&mut market, "userX", "A", units(60));
    assert_eq!(
        bet_error(&mut market, "userX", "A", units(60)),
        MarketError::BetLimitExceeded
    );
    assert_eq!(market.get_outcome_balance("A".to_string()), Ok(units(60)));
    assert_eq!(market.get_total_staked(), units(60));
}

#[test]
fn test_idempotent_terminality() {
    let (mut market, badge) = ab_market(PayoutPolicy::FixedOdds);
    bet(&mut market, "userX", "A", units(10));
    market.deposit_to_xrd_vault(Tokens::new(units(50)));
    market.resolve_market(0, &badge).expect("funded resolution");
    let house = market.get_xrd_vault_balance();
    let pool_a = market.get_outcome_balance("A".to_string()).unwrap();
    let pool_b = market.get_outcome_balance("B".to_string()).unwrap();
    assert_eq!(market.resolve_market(0, &badge), Err(MarketError::AlreadyResolved));
    assert_eq!(
        market.resolve_market_as_void(&badge),
        Err(MarketError::AlreadyResolved)
    );
    assert_eq!(market.get_xrd_vault_balance(), house);
    assert_eq!(market.get_outcome_balance("A".to_string()), Ok(pool_a));
    assert_eq!(market.get_outcome_balance("B".to_string()), Ok(pool_b));
}

#[test]
fn test_unknown_outcome_rejected() {
    let (mut market, _badge) = ab_market(PayoutPolicy::FixedOdds);
    assert_eq!(bet_error(&mut market, "userX", "C", units(10)), MarketError::UnknownOutcome);
    assert_eq!(market.get_total_staked(), 0);
    assert_eq!(market.get_outcome_balance("A".to_string()), Ok(0));
    assert_eq!(market.get_outcome_balance("B".to_string()), Ok(0));
    assert_eq!(
        market.get_outcome_balance("C".to_string()),
        Err(MarketError::UnknownOutcome)
    );
}

#[test]
fn test_details_after_two_bets() {
    let (mut market, _badge) = ab_market(PayoutPolicy::FixedOdds);
    bet(&mut market, "userX", "A", units(10));
    bet(&mut market, "userY", "B", units(20));
    let (title, outcomes, odds, total) = market.get_market_details();
    assert_eq!(title, "title".to_string());
    assert_eq!(outcomes, vec!["A".to_string(), "B".to_string()]);
    assert_eq!(odds, vec![units(2), units(3)]);
    assert_eq!(total, units(30));
    assert_eq!(market.get_total_staked(), units(30));
}

#[test]
fn test_invalid_config() {
    let attempts: Vec<(&str, &str, u128, u128)> = vec![
        ("A,A", "2,3", units(5), units(100)),
        ("A,B", "2", units(5), units(100)),
        ("A,B", "2,3,4", units(5), units(100)),
        ("A,B", "1,3", units(5), units(100)),
        ("A,B", "0.5,3", units(5), units(100)),
        ("A,B", "abc,3", units(5), units(100)),
        ("A,B", "2,3", units(4), units(100)),
        ("A,B", "2,3", units(5), units(5)),
    ];
    for (outcomes, odds, min_bet, max_bet) in attempts {
        let result = PredictionMarket::instantiate_prediction_market(
            "title".to_string(),
            outcomes.to_string(),
            odds.to_string(),
            min_bet,
            max_bet,
            PayoutPolicy::FixedOdds,
        );
        assert!(matches!(result, Err(MarketError::InvalidConfig)));
    }
}

#[test]
fn test_trimmed_fields() {
    let (market, _badge) = new_market(
        "title",
        " A , B ",
        " 1.5 , 2.5 ",
        units(5),
        units(100),
        PayoutPolicy::FixedOdds,
    );
    assert_eq!(market.list_outcomes(), vec!["A".to_string(), "B".to_string()]);
    let (_, _, odds, _) = market.get_market_details();
    assert_eq!(odds, vec![1_500_000u128, 2_500_000u128]);
}

#[test]
fn test_invalid_bet_amounts() {
    let (mut market, _badge) = ab_market(PayoutPolicy::FixedOdds);
    assert_eq!(bet_error(&mut market, "userX", "A", 0), MarketError::InvalidBetAmount);
    assert_eq!(
        bet_error(&mut market, "userX", "A", units(4)),
        MarketError::InvalidBetAmount
    );
    assert_eq!(
        bet_error(&mut market, "userX", "A", units(201)),
        MarketError::InvalidBetAmount
    );
    assert_eq!(market.get_total_staked(), 0);
}

#[test]
fn test_bet_on_resolved_market() {
    let (mut market, badge) = ab_market(PayoutPolicy::FixedOdds);
    let rewards = market.resolve_market(1, &badge).expect("no stakes, nothing owed");
    assert!(rewards.is_empty());
    assert_eq!(
        bet_error(&mut market, "userX", "A", units(10)),
        MarketError::MarketResolved
    );
    assert!(matches!(
        market.claim_reward("userX".to_string()),
        Err(MarketError::NothingToClaim)
    ));
}

#[test]
fn test_out_of_range_resolution() {
    let (mut market, badge) = ab_market(PayoutPolicy::FixedOdds);
    assert_eq!(market.resolve_market(5, &badge), Err(MarketError::OutcomeOutOfRange));
}

#[test]
fn test_unauthorized_admin_ops() {
    let (mut market, _badge) = ab_market(PayoutPolicy::FixedOdds);
    let (_other, other_badge) = new_market(
        "other title",
        "A,B",
        "2,3",
        units(5),
        units(100),
        PayoutPolicy::FixedOdds,
    );
    assert_eq!(market.lock_market(&other_badge), Err(MarketError::Unauthorized));
    assert_eq!(
        market.resolve_market(0, &other_badge),
        Err(MarketError::Unauthorized)
    );
    assert_eq!(
        market.resolve_market_as_void(&other_badge),
        Err(MarketError::Unauthorized)
    );
    assert_eq!(
        market.withdraw_from_vault(units(1), &other_badge),
        Err(MarketError::Unauthorized)
    );
    assert!(matches!(market.admin_claim(&other_badge), Err(MarketError::Unauthorized)));
}

#[test]
fn test_admin_funds() {
    let (mut market, badge) = ab_market(PayoutPolicy::FixedOdds);
    market.deposit_to_xrd_vault(Tokens::new(units(100)));
    assert_eq!(
        market.withdraw_from_vault(units(200), &badge),
        Err(MarketError::InsufficientFunds)
    );
    market.withdraw_from_vault(units(40), &badge).expect("house covers it");
    assert_eq!(market.get_xrd_vault_balance(), units(60));
    let claimed = market.admin_claim(&badge).expect("admin pool filled");
    assert_eq!(claimed.amount(), units(40));
    assert!(matches!(market.admin_claim(&badge), Err(MarketError::NothingToClaim)));
}

#[test]
fn test_claim_is_single_shot() {
    let (mut market, badge) = ab_market(PayoutPolicy::FixedOdds);
    bet(&mut market, "userX", "A", units(10));
    market.deposit_to_xrd_vault(Tokens::new(units(50)));
    market.resolve_market(0, &badge).expect("funded resolution");
    let first = market.claim_reward("userX".to_string()).expect("reward owed");
    assert_eq!(first.amount(), units(20));
    assert!(matches!(
        market.claim_reward("userX".to_string()),
        Err(MarketError::NothingToClaim)
    ));
}

#[test]
fn test_parse_amount_literals() {
    assert_eq!(parse_amount("2"), Some(2_000_000u128));
    assert_eq!(parse_amount("1.5"), Some(1_500_000u128));
    assert_eq!(parse_amount("100.250000"), Some(100_250_000u128));
    assert_eq!(parse_amount("0.000001"), Some(1u128));
    assert_eq!(parse_amount(""), None);
    assert_eq!(parse_amount("abc"), None);
    assert_eq!(parse_amount("1.2345678"), None);
    assert_eq!(parse_amount(".5"), None);
    assert_eq!(parse_amount("5."), None);
    assert_eq!(parse_amount("1.2.3"), None);
    assert_eq!(parse_amount("-1"), None);
}

#[test]
fn test_split_csv_fields() {
    assert_eq!(split_csv(" a , b "), vec!["a".to_string(), "b".to_string()]);
    assert_eq!(split_csv("a"), vec!["a".to_string()]);
    assert_eq!(
        split_csv("a,,b"),
        vec!["a".to_string(), "".to_string(), "b".to_string()]
    );
    assert_eq!(split_csv(""), vec!["".to_string()]);
}

#[test]
fn test_tokens_and_vault_accounting() {
    let t = Tokens::new(units(7));
    assert_eq!(t.amount(), units(7));
    let (mut market, _badge) = ab_market(PayoutPolicy::FixedOdds);
    market.deposit_to_xrd_vault(t);
    market.deposit_to_xrd_vault(Tokens::new(units(3)));
    assert_eq!(market.get_xrd_vault_balance(), units(10));
}
